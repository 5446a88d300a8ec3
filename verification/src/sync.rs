use vstd::prelude::*;
use crate::record::{Record, RecordV};
use crate::store::{
    Store, spec_upsert_all, spec_apply_updates, spec_distinct_ids, spec_has_id,
    spec_insert_conflict, spec_tx_fails, lemma_upsert_all_absent, lemma_upsert_all_distinct,
};

verus! {

/// Is `x` the id of one of the entries of `ids`?
pub open spec fn spec_ids_contain(ids: Seq<i32>, x: int) -> bool {
    exists|k: int| 0 <= k < ids.len() && ids[k] as int == x
}

/// Records of `s` whose id is listed in `ids`, original order kept.
pub open spec fn spec_partition_present(s: Seq<RecordV>, ids: Seq<i32>) -> Seq<RecordV> {
    s.filter(|r: RecordV| spec_ids_contain(ids, r.id))
}

/// Records of `s` whose id is not listed in `ids`, original order kept.
pub open spec fn spec_partition_absent(s: Seq<RecordV>, ids: Seq<i32>) -> Seq<RecordV> {
    s.filter(|r: RecordV| !spec_ids_contain(ids, r.id))
}

/// Records of `s` whose id already has a row in the table `m`: the update
/// half of a diff-then-apply partition.
pub open spec fn spec_sync_updates(m: Map<int, RecordV>, s: Seq<RecordV>) -> Seq<RecordV> {
    s.filter(|r: RecordV| m.dom().contains(r.id))
}

/// Records of `s` whose id has no row in the table `m`: the insert half of
/// a diff-then-apply partition.
pub open spec fn spec_sync_inserts(m: Map<int, RecordV>, s: Seq<RecordV>) -> Seq<RecordV> {
    s.filter(|r: RecordV| !m.dom().contains(r.id))
}

/// Two filters of the same sequence agree when their predicates agree on
/// every element.
proof fn lemma_filter_agree(s: Seq<RecordV>, p: spec_fn(RecordV) -> bool, q: spec_fn(
    RecordV,
) -> bool)
    requires
        forall|i: int| 0 <= i < s.len() ==> p(#[trigger] s[i]) == q(s[i]),
    ensures
        s.filter(p) == s.filter(q),
    decreases s.len(),
{
    reveal_with_fuel(Seq::<_>::filter, 2);
    if s.len() > 0 {
        let d = s.drop_last();
        assert(forall|i: int| 0 <= i < d.len() ==> #[trigger] d[i] == s[i]);
        lemma_filter_agree(d, p, q);
        assert(p(s.last()) == q(s.last()));
    }
}

/// A filtered sequence keeps distinct ids, and every element of it is an
/// element of the original.
proof fn lemma_filter_part(s: Seq<RecordV>, p: spec_fn(RecordV) -> bool)
    requires
        spec_distinct_ids(s),
    ensures
        spec_distinct_ids(s.filter(p)),
        forall|i: int|
            0 <= i < s.filter(p).len() ==> exists|j: int|
                0 <= j < s.len() && s[j] == #[trigger] s.filter(p)[i],
    decreases s.len(),
{
    reveal_with_fuel(Seq::<_>::filter, 2);
    if s.len() > 0 {
        let d = s.drop_last();
        assert(spec_distinct_ids(d)) by {
            assert(forall|i: int| 0 <= i < d.len() ==> #[trigger] d[i] == s[i]);
        }
        lemma_filter_part(d, p);
        let f = s.filter(p);
        let fd = d.filter(p);
        assert forall|i: int| 0 <= i < f.len() implies exists|j: int|
            0 <= j < s.len() && s[j] == #[trigger] f[i] by {
            if p(s.last()) {
                assert(f == fd.push(s.last()));
                if i < fd.len() {
                    assert(f[i] == fd[i]);
                    let j = choose|j: int| 0 <= j < d.len() && d[j] == fd[i];
                    assert(s[j] == f[i]);
                } else {
                    assert(f[i] == s[s.len() - 1]);
                }
            } else {
                assert(f == fd);
                let j = choose|j: int| 0 <= j < d.len() && d[j] == fd[i];
                assert(s[j] == f[i]);
            }
        }
        if p(s.last()) {
            assert(f == fd.push(s.last()));
            assert forall|i: int, j: int| 0 <= i < j < f.len() implies f[i].id != f[j].id by {
                if j == f.len() - 1 {
                    assert(f[j] == s.last());
                    let w = choose|w: int| 0 <= w < d.len() && d[w] == fd[i];
                    assert(s[w] == f[i]);
                    assert(s[w].id != s[s.len() - 1].id);
                } else {
                    assert(f[i] == fd[i] && f[j] == fd[j]);
                }
            }
        }
    }
}

/// Ids already present never leave the table under upserts.
proof fn lemma_upsert_all_dom_grows(m: Map<int, RecordV>, s: Seq<RecordV>)
    ensures
        forall|x: int| m.dom().contains(x) ==> spec_upsert_all(m, s).dom().contains(x),
    decreases s.len(),
{
    if s.len() > 0 {
        lemma_upsert_all_dom_grows(m, s.drop_last());
    }
}

/// When every queued update's id is already present, a conditional-update
/// pass lands every record, exactly as an upsert pass would.
pub proof fn lemma_apply_updates_all_present(m: Map<int, RecordV>, s: Seq<RecordV>)
    requires
        forall|i: int| 0 <= i < s.len() ==> m.dom().contains(#[trigger] s[i].id),
    ensures
        spec_apply_updates(m, s) == spec_upsert_all(m, s),
    decreases s.len(),
{
    if s.len() > 0 {
        let d = s.drop_last();
        assert(forall|i: int| 0 <= i < d.len() ==> #[trigger] d[i] == s[i]);
        lemma_apply_updates_all_present(m, d);
        lemma_upsert_all_dom_grows(m, d);
        assert(s[s.len() - 1] == s.last());
        assert(spec_upsert_all(m, d).dom().contains(s.last().id));
    }
}

/// What one successful synchronize call did: how many records went through
/// the insert half and how many through the update half.
#[derive(Debug)]
pub struct SyncReport {
    pub inserted: usize,
    pub updated: usize,
}

/// A synchronize call whose update transaction the engine aborted: the
/// insert half has landed; this many queued updates were rolled back and
/// left un-synchronized.
#[derive(Debug)]
pub struct SyncFailure {
    pub unsynchronized: usize,
}

/// The ids of the records of `batch`, in batch order.
pub fn extract_ids(batch: &Vec<Record>) -> (r: Vec<i32>)
    ensures
        r@.len() == batch@.len(),
        forall|k: int| 0 <= k < batch@.len() ==> r@[k] as int == #[trigger] batch.deep_view()[k].id,
{
    let mut out: Vec<i32> = Vec::new();
    let mut i: usize = 0;
    while i < batch.len()
        invariant
            0 <= i <= batch@.len(),
            out@.len() == i as int,
            forall|k: int| 0 <= k < i as int ==> out@[k] as int == #[trigger] batch.deep_view()[k].id,
        decreases batch@.len() - i,
    {
        proof {
            assert(batch.deep_view()[i as int] == batch@[i as int]@);
        }
        out.push(batch[i].id);
        i = i + 1;
    }
    out
}

/// Splits a batch by whether each record's id is listed among the existing
/// ids: the update half first, then the insert half, each in batch order.
pub fn partition_by_existence(batch: &Vec<Record>, exist_ids: &Vec<i32>) -> (r: (
    Vec<Record>,
    Vec<Record>,
))
    ensures
        r.0.deep_view() == spec_partition_present(batch.deep_view(), exist_ids@),
        r.1.deep_view() == spec_partition_absent(batch.deep_view(), exist_ids@),
{
    let ghost bv = batch.deep_view();
    let mut present: Vec<Record> = Vec::new();
    let mut absent: Vec<Record> = Vec::new();
    let mut i: usize = 0;
    while i < batch.len()
        invariant
            bv == batch.deep_view(),
            bv.len() == batch@.len(),
            0 <= i <= batch@.len(),
            present.deep_view() == spec_partition_present(bv.take(i as int), exist_ids@),
            absent.deep_view() == spec_partition_absent(bv.take(i as int), exist_ids@),
        decreases batch@.len() - i,
    {
        proof {
            assert(bv[i as int] == batch@[i as int]@);
        }
        let listed = ids_contain(exist_ids, batch[i].id);
        let item = batch[i].clone();
        proof {
            reveal_with_fuel(Seq::<_>::filter, 2);
            let t = bv.take(i as int + 1);
            assert(t.drop_last() =~= bv.take(i as int));
            assert(t.last() == bv[i as int]);
            if listed {
                assert(spec_partition_present(t, exist_ids@) =~= spec_partition_present(
                    bv.take(i as int),
                    exist_ids@,
                ).push(bv[i as int]));
                assert(spec_partition_absent(t, exist_ids@) =~= spec_partition_absent(
                    bv.take(i as int),
                    exist_ids@,
                ));
            } else {
                assert(spec_partition_present(t, exist_ids@) =~= spec_partition_present(
                    bv.take(i as int),
                    exist_ids@,
                ));
                assert(spec_partition_absent(t, exist_ids@) =~= spec_partition_absent(
                    bv.take(i as int),
                    exist_ids@,
                ).push(bv[i as int]));
            }
        }
        if listed {
            present.push(item);
            proof {
                assert(present.deep_view() =~= spec_partition_present(
                    bv.take(i as int + 1),
                    exist_ids@,
                ));
            }
        } else {
            absent.push(item);
            proof {
                assert(absent.deep_view() =~= spec_partition_absent(
                    bv.take(i as int + 1),
                    exist_ids@,
                ));
            }
        }
        i = i + 1;
    }
    proof {
        assert(bv.take(bv.len() as int) =~= bv);
    }
    (present, absent)
}

/// Diff-then-apply synchronization: finds which batch ids already have a
/// row, batch-inserts the absent half in one call, then applies one
/// conditional update per present record inside a single transaction.
/// `update_fail` names the queued update the engine rejected, if any (the
/// caller reports it); a rejection rolls the whole update half back, and
/// the call says how many records that left un-synchronized.
///
/// On success every record of the batch is present with the batch's
/// values, and every other row is untouched.
pub fn synchronize(store: &mut Store, batch: &Vec<Record>, update_fail: Option<usize>) -> (r:
    Result<SyncReport, SyncFailure>)
    requires
        old(store).wf(),
        spec_distinct_ids(batch.deep_view()),
    ensures
        final(store).wf(),
        ({
            let m0 = old(store)@;
            let bv = batch.deep_view();
            let ups = spec_sync_updates(m0, bv);
            let ins = spec_sync_inserts(m0, bv);
            &&& !spec_tx_fails(update_fail, ups.len() as int) ==> (r matches Ok(rep)
                && rep.inserted as int == ins.len() as int && rep.updated as int == ups.len() as int
                && final(store)@ == spec_upsert_all(m0, bv))
            &&& !spec_tx_fails(update_fail, ups.len() as int) ==> forall|i: int|
                0 <= i < bv.len() ==> final(store)@.dom().contains(#[trigger] bv[i].id)
                    && final(store)@[bv[i].id] == bv[i]
            &&& !spec_tx_fails(update_fail, ups.len() as int) ==> forall|x: int|
                !spec_has_id(bv, x) ==> (#[trigger] final(store)@.dom().contains(x)
                    <==> m0.dom().contains(x)) && (m0.dom().contains(x) ==> final(store)@[x]
                    == m0[x])
            &&& spec_tx_fails(update_fail, ups.len() as int) ==> (r matches Err(f)
                && f.unsynchronized as int == ups.len() as int && final(store)@
                == spec_upsert_all(m0, ins))
            &&& bv.len() == 0 ==> final(store)@ == m0 && (r matches Ok(rep) && rep.inserted == 0
                && rep.updated == 0)
        }),
{
    let ghost m0 = old(store)@;
    let ghost bv = batch.deep_view();
    let ghost p_up = |r: RecordV| m0.dom().contains(r.id);
    let ghost p_in = |r: RecordV| !m0.dom().contains(r.id);
    let ids = extract_ids(batch);
    let exist_ids = store.find_existing(&ids);
    let (to_update, to_insert) = partition_by_existence(batch, &exist_ids);
    let ghost uv = to_update.deep_view();
    let ghost iv = to_insert.deep_view();
    proof {
        let p_listed = |r: RecordV| spec_ids_contain(exist_ids@, r.id);
        let p_unlisted = |r: RecordV| !spec_ids_contain(exist_ids@, r.id);
        let p_present = |x: i32| m0.dom().contains(x as int);
        assert forall|i: int| 0 <= i < bv.len() implies p_listed(#[trigger] bv[i]) == p_up(
            bv[i],
        ) && p_unlisted(bv[i]) == p_in(bv[i]) by {
            if spec_ids_contain(exist_ids@, bv[i].id) {
                let k = choose|k: int|
                    0 <= k < exist_ids@.len() && exist_ids@[k] as int == bv[i].id;
                ids@.lemma_filter_pred(p_present, k);
            }
            if m0.dom().contains(bv[i].id) {
                assert(ids@[i] as int == bv[i].id);
                assert(p_present(ids@[i]));
                ids@.lemma_filter_contains(p_present, i);
                let k = choose|k: int|
                    0 <= k < exist_ids@.len() && exist_ids@[k] == ids@[i];
                assert(exist_ids@[k] as int == bv[i].id);
            }
        }
        lemma_filter_agree(bv, p_listed, p_up);
        lemma_filter_agree(bv, p_unlisted, p_in);
        assert(uv == spec_sync_updates(m0, bv));
        assert(iv == spec_sync_inserts(m0, bv));
        lemma_filter_part(bv, p_up);
        lemma_filter_part(bv, p_in);
        assert forall|i: int| 0 <= i < uv.len() implies m0.dom().contains(
            #[trigger] uv[i].id,
        ) by {
            bv.lemma_filter_pred(p_up, i);
        }
        assert forall|i: int| 0 <= i < iv.len() implies !m0.dom().contains(
            #[trigger] iv[i].id,
        ) by {
            bv.lemma_filter_pred(p_in, i);
        }
        assert(!spec_insert_conflict(m0, iv));
    }
    let _insert_outcome = store.batch_insert(&to_insert);
    proof {
        assert(_insert_outcome is Ok);
    }
    let ghost m1 = store@;
    let outcome = store.run_in_transaction(&to_update, update_fail);
    proof {
        assert(uv.len() == to_update@.len());
        if !spec_tx_fails(update_fail, uv.len() as int) {
            assert forall|i: int| 0 <= i < uv.len() implies m1.dom().contains(
                #[trigger] uv[i].id,
            ) by {
                bv.lemma_filter_pred(p_up, i);
                lemma_upsert_all_dom_grows(m0, iv);
            }
            lemma_apply_updates_all_present(m1, uv);
            lemma_sync_apply(m0, bv, uv, iv);
            lemma_upsert_all_distinct(m0, bv);
            lemma_upsert_all_absent(m0, bv);
        }
        if bv.len() == 0 {
            assert(spec_sync_updates(m0, bv) =~= Seq::<RecordV>::empty());
            assert(spec_sync_inserts(m0, bv) =~= Seq::<RecordV>::empty());
            assert(!spec_tx_fails(update_fail, 0));
            assert(spec_upsert_all(m0, bv) == m0);
        }
    }
    match outcome {
        Ok(_) => Ok(SyncReport { inserted: to_insert.len(), updated: to_update.len() }),
        Err(_) => Err(SyncFailure { unsynchronized: to_update.len() }),
    }
}

/// The heart of diff-then-apply: upserting the insert half and then the
/// update half of a batch with distinct ids lands the whole batch, exactly
/// as upserting the batch itself would.
proof fn lemma_sync_apply(m0: Map<int, RecordV>, bv: Seq<RecordV>, uv: Seq<RecordV>, iv: Seq<
    RecordV,
>)
    requires
        spec_distinct_ids(bv),
        uv == spec_sync_updates(m0, bv),
        iv == spec_sync_inserts(m0, bv),
    ensures
        spec_upsert_all(spec_upsert_all(m0, iv), uv) == spec_upsert_all(m0, bv),
{
    let p_up = |r: RecordV| m0.dom().contains(r.id);
    let p_in = |r: RecordV| !m0.dom().contains(r.id);
    let m1 = spec_upsert_all(m0, iv);
    let lhs = spec_upsert_all(m1, uv);
    let rhs = spec_upsert_all(m0, bv);
    lemma_filter_part(bv, p_up);
    lemma_filter_part(bv, p_in);
    assert forall|i: int| 0 <= i < uv.len() implies m0.dom().contains(#[trigger] uv[i].id) by {
        bv.lemma_filter_pred(p_up, i);
    }
    assert forall|i: int| 0 <= i < iv.len() implies !m0.dom().contains(#[trigger] iv[i].id) by {
        bv.lemma_filter_pred(p_in, i);
    }
    lemma_upsert_all_absent(m0, iv);
    lemma_upsert_all_absent(m0, bv);
    lemma_upsert_all_absent(m1, uv);
    lemma_upsert_all_distinct(m0, iv);
    lemma_upsert_all_distinct(m1, uv);
    lemma_upsert_all_distinct(m0, bv);
    assert forall|x: int| #![trigger lhs.dom().contains(x), rhs.dom().contains(x)]
        (lhs.dom().contains(x) <==> rhs.dom().contains(x)) && (lhs.dom().contains(x)
        ==> lhs[x] == rhs[x]) by {
        if spec_has_id(bv, x) {
            let j = choose|j: int| 0 <= j < bv.len() && bv[j].id == x;
            assert(rhs.dom().contains(bv[j].id) && rhs[bv[j].id] == bv[j]);
            if m0.dom().contains(x) {
                bv.lemma_filter_contains(p_up, j);
                let i = choose|i: int| 0 <= i < uv.len() && uv[i] == bv[j];
                assert(lhs.dom().contains(uv[i].id) && lhs[uv[i].id] == uv[i]);
            } else {
                bv.lemma_filter_contains(p_in, j);
                let i = choose|i: int| 0 <= i < iv.len() && iv[i] == bv[j];
                assert(m1.dom().contains(iv[i].id) && m1[iv[i].id] == iv[i]);
                assert(!spec_has_id(uv, x)) by {
                    if spec_has_id(uv, x) {
                        let w = choose|w: int| 0 <= w < uv.len() && uv[w].id == x;
                        assert(m0.dom().contains(uv[w].id));
                    }
                }
                assert(lhs.dom().contains(x) && lhs[x] == m1[x]);
            }
        } else {
            assert(!spec_has_id(uv, x)) by {
                if spec_has_id(uv, x) {
                    let w = choose|w: int| 0 <= w < uv.len() && uv[w].id == x;
                    let j = choose|j: int| 0 <= j < bv.len() && bv[j] == uv[w];
                    assert(bv[j].id == x);
                }
            }
            assert(!spec_has_id(iv, x)) by {
                if spec_has_id(iv, x) {
                    let w = choose|w: int| 0 <= w < iv.len() && iv[w].id == x;
                    let j = choose|j: int| 0 <= j < bv.len() && bv[j] == iv[w];
                    assert(bv[j].id == x);
                }
            }
            assert(lhs.dom().contains(x) <==> m1.dom().contains(x));
            assert(m1.dom().contains(x) <==> m0.dom().contains(x));
            assert(rhs.dom().contains(x) <==> m0.dom().contains(x));
            if m0.dom().contains(x) {
                assert(m1[x] == m0[x]);
                assert(lhs[x] == m1[x]);
                assert(rhs[x] == m0[x]);
            }
        }
    }
    assert(lhs =~= rhs);
}

/// Is `x` among the listed ids?
pub fn ids_contain(ids: &Vec<i32>, x: i32) -> (r: bool)
    ensures
        r == spec_ids_contain(ids@, x as int),
{
    let mut i: usize = 0;
    while i < ids.len()
        invariant
            0 <= i <= ids@.len(),
            forall|k: int| 0 <= k < i as int ==> ids@[k] as int != x as int,
        decreases ids@.len() - i,
    {
        if ids[i] == x {
            return true;
        }
        i = i + 1;
    }
    false
}

} // verus!
