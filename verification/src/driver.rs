use vstd::prelude::*;
use crate::record::RecordV;
use crate::generator::{
    Config, get_all_data_count, create_update_users, create_all_users, create_all_update_users,
    spec_gen_record, spec_gen_name, spec_gen_email, spec_remap_id, spec_remap_record,
};
use crate::store::{
    Store, spec_upsert_all, spec_distinct_ids, spec_has_id, spec_apply_updates,
    lemma_upsert_all_absent, lemma_upsert_all_distinct,
};
use crate::sync::{synchronize, lemma_apply_updates_all_present};

verus! {

/// The reproducible starting table: ids `1 .. total`, each with the
/// unsuffixed generated values.
pub open spec fn spec_baseline(total: int) -> Map<int, RecordV> {
    Map::new(|x: int| 1 <= x <= total, |x: int| spec_gen_record(x, ""@))
}

/// The table after one plain strategy run: every baseline row overwritten
/// with the suffixed generated values.
pub open spec fn spec_updated_table(cfg: Config, suffix: Seq<char>) -> Map<int, RecordV> {
    Map::new(|x: int| 1 <= x <= cfg.spec_total(), |x: int| spec_gen_record(x, suffix))
}

/// Is `x` a row id of the table left by an overflow-split strategy run?
/// The baseline ids all stay; shifted copies appear past the whole range.
pub open spec fn spec_split_dom(cfg: Config, x: int) -> bool {
    ||| 1 <= x <= cfg.spec_total()
    ||| (cfg.spec_total() < x <= 2 * cfg.spec_total() && (x - cfg.spec_total()) % (cfg.batch_count as int)
        >= (cfg.batch_count as int) / 2)
}

/// The row an overflow-split strategy run leaves at id `x`: a shifted row
/// carries the values of its original id; a baseline id in the upper half
/// of its batch slot was shifted away, so its baseline row remains; the
/// rest were overwritten in place.
pub open spec fn spec_split_value(cfg: Config, x: int, suffix: Seq<char>) -> RecordV {
    if x > cfg.spec_total() {
        RecordV {
            id: x,
            name: spec_gen_name(x - cfg.spec_total(), suffix),
            email: spec_gen_email(x - cfg.spec_total(), suffix),
        }
    } else if x % (cfg.batch_count as int) >= (cfg.batch_count as int) / 2 {
        spec_gen_record(x, ""@)
    } else {
        spec_gen_record(x, suffix)
    }
}

/// The whole table left by an overflow-split strategy run.
pub open spec fn spec_split_table(cfg: Config, suffix: Seq<char>) -> Map<int, RecordV> {
    Map::new(|x: int| spec_split_dom(cfg, x), |x: int| spec_split_value(cfg, x, suffix))
}

/// Baseline reset: deletes every row, then bulk-replaces the fixed known
/// baseline record set.
pub fn reset_data(store: &mut Store, cfg: &Config)
    requires
        old(store).wf(),
        cfg.wf(),
    ensures
        final(store).wf(),
        final(store)@ == spec_baseline(cfg.spec_total()),
{
    store.delete_all();
    let count = get_all_data_count(cfg);
    let new_users = create_update_users(1, count, "");
    store.bulk_replace(&new_users);
    proof {
        let nv = new_users.deep_view();
        let total = cfg.spec_total();
        assert(forall|k: int| 0 <= k < nv.len() ==> #[trigger] nv[k] == new_users@[k]@);
        assert(forall|k: int|
            0 <= k < nv.len() ==> #[trigger] nv[k] == spec_gen_record(1 + k, ""@));
        assert(spec_distinct_ids(nv));
        lemma_upsert_all_distinct(Map::empty(), nv);
        lemma_upsert_all_absent(Map::empty(), nv);
        assert forall|x: int| #[trigger]
            store@.dom().contains(x) <==> 1 <= x <= total by {
            if spec_has_id(nv, x) {
                let w = choose|w: int| 0 <= w < nv.len() && nv[w].id == x;
                assert(nv[w] == spec_gen_record(1 + w, ""@));
            }
            if 1 <= x <= total {
                assert(nv[x - 1].id == x);
            }
        }
        assert forall|x: int| 1 <= x <= total implies #[trigger] store@[x] == spec_gen_record(
            x,
            ""@,
        ) by {
            assert(nv[x - 1].id == x);
        }
        assert(store@ =~= spec_baseline(total));
    }
}

/// The unconditional-upsert strategy: after a baseline reset, bulk-replaces
/// every generated batch; every row ends up overwritten with the first
/// update suffix.
pub fn replace_into_test(store: &mut Store, cfg: &Config)
    requires
        old(store).wf(),
        cfg.wf(),
    ensures
        final(store).wf(),
        final(store)@ == spec_updated_table(*cfg, "update1"@),
{
    reset_data(store, cfg);
    let all_users = create_all_users(cfg);
    let ghost total = cfg.spec_total();
    let ghost bc = cfg.batch_count as int;
    let mut b: usize = 0;
    while b < all_users.len()
        invariant
            store.wf(),
            cfg.wf(),
            total == cfg.spec_total(),
            bc == cfg.batch_count as int,
            all_users@.len() == cfg.repeat_count as int,
            forall|i: int|
                0 <= i < cfg.repeat_count as int ==> (#[trigger] all_users@[i])@.len() == bc,
            forall|i: int, k: int|
                0 <= i < cfg.repeat_count as int && 0 <= k < bc ==> (
                #[trigger] all_users@[i]@[k])@ == spec_gen_record(i * bc + 1 + k, "update1"@),
            0 <= b <= cfg.repeat_count as int,
            forall|x: int| #[trigger] store@.dom().contains(x) <==> 1 <= x <= total,
            forall|x: int|
                1 <= x <= (b as int) * bc ==> #[trigger] store@[x] == spec_gen_record(
                    x,
                    "update1"@,
                ),
            forall|x: int|
                (b as int) * bc < x <= total ==> #[trigger] store@[x] == spec_gen_record(x, ""@),
        decreases all_users@.len() - b,
    {
        proof {
            assert(0 <= (b as int) * bc && (b as int) * bc + bc <= total) by (nonlinear_arith)
                requires
                    0 <= (b as int) < cfg.repeat_count as int,
                    0 < cfg.batch_count,
                    total == (cfg.batch_count as int) * (cfg.repeat_count as int),
                    bc == cfg.batch_count as int,
            ;
        }
        let ghost m_before = store@;
        store.bulk_replace(&all_users[b]);
        proof {
            lemma_step_plain(m_before, store@, all_users@[b as int].deep_view(), b as int, *cfg);
        }
        b = b + 1;
    }
    proof {
        assert((cfg.repeat_count as int) * bc == total) by (nonlinear_arith)
            requires
                total == (cfg.batch_count as int) * (cfg.repeat_count as int),
                bc == cfg.batch_count as int,
        ;
        assert(store@ =~= spec_updated_table(*cfg, "update1"@));
    }
}

/// One plain-strategy batch step: upserting the batch that covers ids
/// `b * batch_count + 1 ..= (b + 1) * batch_count` advances the updated
/// boundary by one batch and touches nothing else.
proof fn lemma_step_plain(m0: Map<int, RecordV>, m1: Map<int, RecordV>, s: Seq<RecordV>, b: int, cfg: Config)
    requires
        cfg.wf(),
        0 <= b < cfg.repeat_count as int,
        s.len() == cfg.batch_count as int,
        forall|k: int|
            0 <= k < s.len() ==> #[trigger] s[k] == spec_gen_record(
                b * (cfg.batch_count as int) + 1 + k,
                "update1"@,
            ),
        m1 == spec_upsert_all(m0, s),
        forall|x: int| #[trigger] m0.dom().contains(x) <==> 1 <= x <= cfg.spec_total(),
        forall|x: int|
            1 <= x <= b * (cfg.batch_count as int) ==> #[trigger] m0[x] == spec_gen_record(
                x,
                "update1"@,
            ),
        forall|x: int|
            b * (cfg.batch_count as int) < x <= cfg.spec_total() ==> #[trigger] m0[x]
                == spec_gen_record(x, ""@),
    ensures
        forall|x: int| #[trigger] m1.dom().contains(x) <==> 1 <= x <= cfg.spec_total(),
        forall|x: int|
            1 <= x <= (b + 1) * (cfg.batch_count as int) ==> #[trigger] m1[x] == spec_gen_record(
                x,
                "update1"@,
            ),
        forall|x: int|
            (b + 1) * (cfg.batch_count as int) < x <= cfg.spec_total() ==> #[trigger] m1[x]
                == spec_gen_record(x, ""@),
{
    let bc = cfg.batch_count as int;
    let total = cfg.spec_total();
    assert(0 <= b * bc && b * bc + bc <= total && (b + 1) * bc == b * bc + bc)
        by (nonlinear_arith)
        requires
            0 <= b < cfg.repeat_count as int,
            0 < cfg.batch_count,
            total == (cfg.batch_count as int) * (cfg.repeat_count as int),
            bc == cfg.batch_count as int,
    ;
    assert(spec_distinct_ids(s));
    lemma_upsert_all_distinct(m0, s);
    lemma_upsert_all_absent(m0, s);
    assert forall|x: int| !(b * bc < x <= b * bc + bc) implies !spec_has_id(s, x) by {
        if spec_has_id(s, x) {
            let w = choose|w: int| 0 <= w < s.len() && s[w].id == x;
            assert(s[w] == spec_gen_record(b * bc + 1 + w, "update1"@));
        }
    }
    assert forall|x: int| b * bc < x <= b * bc + bc implies m1.dom().contains(x) && #[trigger] m1[x]
        == spec_gen_record(x, "update1"@) by {
        let k = x - (b * bc + 1);
        assert(s[k] == spec_gen_record(x, "update1"@));
        assert(m1.dom().contains(s[k].id) && m1[s[k].id] == s[k]);
    }
}

/// The per-row-update strategies: after a baseline reset, every generated
/// record is applied with one conditional update; since every generated id
/// is a baseline id, every row ends up overwritten with the first update
/// suffix, exactly as the unconditional-upsert strategy leaves it.
pub fn update_test(store: &mut Store, cfg: &Config)
    requires
        old(store).wf(),
        cfg.wf(),
    ensures
        final(store).wf(),
        final(store)@ == spec_updated_table(*cfg, "update1"@),
{
    reset_data(store, cfg);
    let all_users = create_all_users(cfg);
    let ghost total = cfg.spec_total();
    let ghost bc = cfg.batch_count as int;
    let mut b: usize = 0;
    while b < all_users.len()
        invariant
            store.wf(),
            cfg.wf(),
            total == cfg.spec_total(),
            bc == cfg.batch_count as int,
            all_users@.len() == cfg.repeat_count as int,
            forall|i: int|
                0 <= i < cfg.repeat_count as int ==> (#[trigger] all_users@[i])@.len() == bc,
            forall|i: int, k: int|
                0 <= i < cfg.repeat_count as int && 0 <= k < bc ==> (
                #[trigger] all_users@[i]@[k])@ == spec_gen_record(i * bc + 1 + k, "update1"@),
            0 <= b <= cfg.repeat_count as int,
            forall|x: int| #[trigger] store@.dom().contains(x) <==> 1 <= x <= total,
            forall|x: int|
                1 <= x <= (b as int) * bc ==> #[trigger] store@[x] == spec_gen_record(
                    x,
                    "update1"@,
                ),
            forall|x: int|
                (b as int) * bc < x <= total ==> #[trigger] store@[x] == spec_gen_record(x, ""@),
        decreases all_users@.len() - b,
    {
        proof {
            assert(0 <= (b as int) * bc && (b as int) * bc + bc <= total) by (nonlinear_arith)
                requires
                    0 <= (b as int) < cfg.repeat_count as int,
                    0 < cfg.batch_count,
                    total == (cfg.batch_count as int) * (cfg.repeat_count as int),
                    bc == cfg.batch_count as int,
            ;
        }
        let ghost m_before = store@;
        let batch = &all_users[b];
        let ghost sv = batch.deep_view();
        proof {
            assert(forall|k: int| 0 <= k < sv.len() ==> #[trigger] sv[k] == batch@[k]@);
        }
        let mut j: usize = 0;
        while j < batch.len()
            invariant
                store.wf(),
                sv == batch.deep_view(),
                sv.len() == batch@.len(),
                sv.len() == bc,
                0 <= j <= sv.len(),
                store@ == spec_apply_updates(m_before, sv.take(j as int)),
            decreases sv.len() - j,
        {
            proof {
                assert(sv[j as int] == batch@[j as int]@);
            }
            store.conditional_update(&batch[j]);
            proof {
                let t = sv.take(j as int + 1);
                assert(t.drop_last() =~= sv.take(j as int));
                assert(t.last() == sv[j as int]);
            }
            j = j + 1;
        }
        proof {
            assert(sv.take(sv.len() as int) =~= sv);
            assert forall|k: int| 0 <= k < sv.len() implies m_before.dom().contains(
                #[trigger] sv[k].id,
            ) by {
                assert(sv[k] == spec_gen_record((b as int) * bc + 1 + k, "update1"@));
            }
            lemma_apply_updates_all_present(m_before, sv);
            lemma_step_plain(m_before, store@, sv, b as int, *cfg);
        }
        b = b + 1;
    }
    proof {
        assert((cfg.repeat_count as int) * bc == total) by (nonlinear_arith)
            requires
                total == (cfg.batch_count as int) * (cfg.repeat_count as int),
                bc == cfg.batch_count as int,
        ;
        assert(store@ =~= spec_updated_table(*cfg, "update1"@));
    }
}

/// The transactional per-row-update strategy: as [`update_test`], but each
/// batch's conditional updates run inside one transaction.  The benchmark
/// model reports no engine rejection, so every transaction commits and the
/// final table is the same.
pub fn update_transaction_test(store: &mut Store, cfg: &Config)
    requires
        old(store).wf(),
        cfg.wf(),
    ensures
        final(store).wf(),
        final(store)@ == spec_updated_table(*cfg, "update1"@),
{
    reset_data(store, cfg);
    let all_users = create_all_users(cfg);
    let ghost total = cfg.spec_total();
    let ghost bc = cfg.batch_count as int;
    let mut b: usize = 0;
    while b < all_users.len()
        invariant
            store.wf(),
            cfg.wf(),
            total == cfg.spec_total(),
            bc == cfg.batch_count as int,
            all_users@.len() == cfg.repeat_count as int,
            forall|i: int|
                0 <= i < cfg.repeat_count as int ==> (#[trigger] all_users@[i])@.len() == bc,
            forall|i: int, k: int|
                0 <= i < cfg.repeat_count as int && 0 <= k < bc ==> (
                #[trigger] all_users@[i]@[k])@ == spec_gen_record(i * bc + 1 + k, "update1"@),
            0 <= b <= cfg.repeat_count as int,
            forall|x: int| #[trigger] store@.dom().contains(x) <==> 1 <= x <= total,
            forall|x: int|
                1 <= x <= (b as int) * bc ==> #[trigger] store@[x] == spec_gen_record(
                    x,
                    "update1"@,
                ),
            forall|x: int|
                (b as int) * bc < x <= total ==> #[trigger] store@[x] == spec_gen_record(x, ""@),
        decreases all_users@.len() - b,
    {
        proof {
            assert(0 <= (b as int) * bc && (b as int) * bc + bc <= total) by (nonlinear_arith)
                requires
                    0 <= (b as int) < cfg.repeat_count as int,
                    0 < cfg.batch_count,
                    total == (cfg.batch_count as int) * (cfg.repeat_count as int),
                    bc == cfg.batch_count as int,
            ;
        }
        let ghost m_before = store@;
        let batch = &all_users[b];
        let ghost sv = batch.deep_view();
        proof {
            assert(forall|k: int| 0 <= k < sv.len() ==> #[trigger] sv[k] == batch@[k]@);
        }
        let _committed = store.run_in_transaction(batch, None);
        proof {
            assert forall|k: int| 0 <= k < sv.len() implies m_before.dom().contains(
                #[trigger] sv[k].id,
            ) by {
                assert(sv[k] == spec_gen_record((b as int) * bc + 1 + k, "update1"@));
            }
            lemma_apply_updates_all_present(m_before, sv);
            lemma_step_plain(m_before, store@, sv, b as int, *cfg);
        }
        b = b + 1;
    }
    proof {
        assert((cfg.repeat_count as int) * bc == total) by (nonlinear_arith)
            requires
                total == (cfg.batch_count as int) * (cfg.repeat_count as int),
                bc == cfg.batch_count as int,
        ;
        assert(store@ =~= spec_updated_table(*cfg, "update1"@));
    }
}

/// The table state after the first `processed` generated records of an
/// overflow-split run have been applied over the baseline.
pub open spec fn spec_split_inv(cfg: Config, processed: int, m: Map<int, RecordV>) -> bool {
    let total = cfg.spec_total();
    let bc = cfg.batch_count as int;
    &&& forall|x: int|
        #[trigger] m.dom().contains(x) <==> (1 <= x <= total || (total < x <= total + processed
            && (x - total) % bc >= bc / 2))
    &&& forall|x: int|
        1 <= x <= processed && x % bc < bc / 2 ==> #[trigger] m[x] == spec_gen_record(
            x,
            "update2"@,
        )
    &&& forall|x: int|
        1 <= x <= processed && x % bc >= bc / 2 ==> #[trigger] m[x] == spec_gen_record(x, ""@)
    &&& forall|x: int| processed < x <= total ==> #[trigger] m[x] == spec_gen_record(x, ""@)
    &&& forall|x: int|
        total < x <= total + processed && (x - total) % bc >= bc / 2 ==> #[trigger] m[x]
            == RecordV {
            id: x,
            name: spec_gen_name(x - total, "update2"@),
            email: spec_gen_email(x - total, "update2"@),
        }
}

/// An overflow-split batch carries distinct ids.
proof fn lemma_split_batch_distinct(s: Seq<RecordV>, b: int, cfg: Config)
    requires
        cfg.wf(),
        0 <= b < cfg.repeat_count as int,
        s.len() == cfg.batch_count as int,
        forall|k: int|
            0 <= k < s.len() ==> #[trigger] s[k] == spec_remap_record(
                b * (cfg.batch_count as int) + 1 + k,
                cfg.batch_count as int,
                cfg.spec_total(),
                "update2"@,
            ),
    ensures
        spec_distinct_ids(s),
{
    let bc = cfg.batch_count as int;
    let total = cfg.spec_total();
    assert(0 <= b * bc && b * bc + bc <= total) by (nonlinear_arith)
        requires
            0 <= b < cfg.repeat_count as int,
            0 < cfg.batch_count,
            total == (cfg.batch_count as int) * (cfg.repeat_count as int),
            bc == cfg.batch_count as int,
    ;
    assert forall|k: int, l: int| 0 <= k < l < s.len() implies s[k].id != s[l].id by {
        let yk = b * bc + 1 + k;
        let yl = b * bc + 1 + l;
        assert(s[k].id == spec_remap_id(yk, bc, total));
        assert(s[l].id == spec_remap_id(yl, bc, total));
    }
}

/// One overflow-split batch step: upserting the remapped batch that covers
/// original ids `b * batch_count + 1 ..= (b + 1) * batch_count` advances
/// the processed boundary by one batch and touches nothing else.
proof fn lemma_step_split(m0: Map<int, RecordV>, m1: Map<int, RecordV>, s: Seq<RecordV>, b: int, cfg: Config)
    requires
        cfg.wf(),
        0 <= b < cfg.repeat_count as int,
        s.len() == cfg.batch_count as int,
        forall|k: int|
            0 <= k < s.len() ==> #[trigger] s[k] == spec_remap_record(
                b * (cfg.batch_count as int) + 1 + k,
                cfg.batch_count as int,
                cfg.spec_total(),
                "update2"@,
            ),
        m1 == spec_upsert_all(m0, s),
        spec_split_inv(cfg, b * (cfg.batch_count as int), m0),
    ensures
        spec_split_inv(cfg, (b + 1) * (cfg.batch_count as int), m1),
{
    let bc = cfg.batch_count as int;
    let total = cfg.spec_total();
    assert(0 <= b * bc && b * bc + bc <= total && (b + 1) * bc == b * bc + bc)
        by (nonlinear_arith)
        requires
            0 <= b < cfg.repeat_count as int,
            0 < cfg.batch_count,
            total == (cfg.batch_count as int) * (cfg.repeat_count as int),
            bc == cfg.batch_count as int,
    ;
    lemma_split_batch_distinct(s, b, cfg);
    lemma_upsert_all_distinct(m0, s);
    lemma_upsert_all_absent(m0, s);
    assert forall|x: int|
        #![trigger m1.dom().contains(x)]
        #![trigger m1[x]]
        true implies {
        let in_batch_low = b * bc < x <= b * bc + bc && x % bc < bc / 2;
        let in_batch_high = total + b * bc < x <= total + b * bc + bc && (x - total) % bc >= bc
            / 2;
        &&& (spec_has_id(s, x) <==> in_batch_low || in_batch_high)
        &&& (in_batch_low ==> m1.dom().contains(x) && m1[x] == spec_gen_record(x, "update2"@))
        &&& (in_batch_high ==> m1.dom().contains(x) && m1[x] == RecordV {
            id: x,
            name: spec_gen_name(x - total, "update2"@),
            email: spec_gen_email(x - total, "update2"@),
        })
    } by {
        let in_batch_low = b * bc < x <= b * bc + bc && x % bc < bc / 2;
        let in_batch_high = total + b * bc < x <= total + b * bc + bc && (x - total) % bc >= bc
            / 2;
        if spec_has_id(s, x) {
            let w = choose|w: int| 0 <= w < s.len() && s[w].id == x;
            let y = b * bc + 1 + w;
            assert(s[w] == spec_remap_record(y, bc, total, "update2"@));
            if y % bc >= bc / 2 {
                assert(x == y + total);
                assert(in_batch_high);
            } else {
                assert(x == y);
                assert(in_batch_low);
            }
        }
        if in_batch_low {
            let k = x - (b * bc + 1);
            assert(s[k] == spec_remap_record(x, bc, total, "update2"@));
            assert(s[k].id == x);
            assert(m1.dom().contains(s[k].id) && m1[s[k].id] == s[k]);
            assert(s[k] == spec_gen_record(x, "update2"@));
        }
        if in_batch_high {
            let y = x - total;
            let k = y - (b * bc + 1);
            assert(s[k] == spec_remap_record(y, bc, total, "update2"@));
            assert(s[k].id == x);
            assert(m1.dom().contains(s[k].id) && m1[s[k].id] == s[k]);
        }
    }
}

/// The upsert-only overflow-split strategy: after a baseline reset, every
/// remapped batch is bulk-replaced, so the shifted half of every batch is
/// inserted past the baseline range and the rest overwrite their rows in
/// place.
pub fn new_replace_into_test(store: &mut Store, cfg: &Config)
    requires
        old(store).wf(),
        cfg.wf(),
    ensures
        final(store).wf(),
        final(store)@ == spec_split_table(*cfg, "update2"@),
{
    reset_data(store, cfg);
    let all_users = create_all_update_users(cfg);
    let ghost total = cfg.spec_total();
    let ghost bc = cfg.batch_count as int;
    proof {
        assert(spec_split_inv(*cfg, 0, store@));
    }
    let mut b: usize = 0;
    while b < all_users.len()
        invariant
            store.wf(),
            cfg.wf(),
            total == cfg.spec_total(),
            bc == cfg.batch_count as int,
            all_users@.len() == cfg.repeat_count as int,
            forall|i: int|
                0 <= i < cfg.repeat_count as int ==> (#[trigger] all_users@[i])@.len() == bc,
            forall|i: int, k: int|
                0 <= i < cfg.repeat_count as int && 0 <= k < bc ==> (
                #[trigger] all_users@[i]@[k])@ == spec_remap_record(
                    i * bc + 1 + k,
                    bc,
                    total,
                    "update2"@,
                ),
            0 <= b <= cfg.repeat_count as int,
            spec_split_inv(*cfg, (b as int) * bc, store@),
        decreases all_users@.len() - b,
    {
        let ghost m_before = store@;
        store.bulk_replace(&all_users[b]);
        proof {
            lemma_step_split(m_before, store@, all_users@[b as int].deep_view(), b as int, *cfg);
        }
        b = b + 1;
    }
    proof {
        assert((cfg.repeat_count as int) * bc == total) by (nonlinear_arith)
            requires
                total == (cfg.batch_count as int) * (cfg.repeat_count as int),
                bc == cfg.batch_count as int,
        ;
        lemma_split_inv_closes(*cfg, store@);
    }
}

/// A fully processed overflow-split run leaves exactly the split table.
proof fn lemma_split_inv_closes(cfg: Config, m: Map<int, RecordV>)
    requires
        cfg.wf(),
        spec_split_inv(cfg, cfg.spec_total(), m),
    ensures
        m == spec_split_table(cfg, "update2"@),
{
    assert(m =~= spec_split_table(cfg, "update2"@));
}

/// The diff-then-apply strategy: after a baseline reset, every remapped
/// batch goes through [`synchronize`]; the shifted half of every batch is
/// batch-inserted and the rest are updated transactionally, so the final
/// table is exactly the one the upsert-only overflow-split strategy leaves.
pub fn select_create_update_test(store: &mut Store, cfg: &Config)
    requires
        old(store).wf(),
        cfg.wf(),
    ensures
        final(store).wf(),
        final(store)@ == spec_split_table(*cfg, "update2"@),
{
    reset_data(store, cfg);
    let all_users = create_all_update_users(cfg);
    let ghost total = cfg.spec_total();
    let ghost bc = cfg.batch_count as int;
    proof {
        assert(spec_split_inv(*cfg, 0, store@));
    }
    let mut b: usize = 0;
    while b < all_users.len()
        invariant
            store.wf(),
            cfg.wf(),
            total == cfg.spec_total(),
            bc == cfg.batch_count as int,
            all_users@.len() == cfg.repeat_count as int,
            forall|i: int|
                0 <= i < cfg.repeat_count as int ==> (#[trigger] all_users@[i])@.len() == bc,
            forall|i: int, k: int|
                0 <= i < cfg.repeat_count as int && 0 <= k < bc ==> (
                #[trigger] all_users@[i]@[k])@ == spec_remap_record(
                    i * bc + 1 + k,
                    bc,
                    total,
                    "update2"@,
                ),
            0 <= b <= cfg.repeat_count as int,
            spec_split_inv(*cfg, (b as int) * bc, store@),
        decreases all_users@.len() - b,
    {
        let ghost m_before = store@;
        let batch = &all_users[b];
        let ghost sv = batch.deep_view();
        proof {
            assert(forall|k: int| 0 <= k < sv.len() ==> #[trigger] sv[k] == batch@[k]@);
            lemma_split_batch_distinct(sv, b as int, *cfg);
        }
        let _synced = synchronize(store, batch, None);
        proof {
            lemma_step_split(m_before, store@, sv, b as int, *cfg);
        }
        b = b + 1;
    }
    proof {
        assert((cfg.repeat_count as int) * bc == total) by (nonlinear_arith)
            requires
                total == (cfg.batch_count as int) * (cfg.repeat_count as int),
                bc == cfg.batch_count as int,
        ;
        lemma_split_inv_closes(*cfg, store@);
    }
}

/// One full benchmark-matrix entry: the four strategies in their fixed
/// order, each over a fresh baseline; the store is left as the final
/// diff-then-apply strategy run leaves it.
pub fn run_config(store: &mut Store, cfg: &Config)
    requires
        old(store).wf(),
        cfg.wf(),
    ensures
        final(store).wf(),
        final(store)@ == spec_split_table(*cfg, "update2"@),
{
    replace_into_test(store, cfg);
    update_test(store, cfg);
    update_transaction_test(store, cfg);
    new_replace_into_test(store, cfg);
    select_create_update_test(store, cfg);
}

} // verus!
