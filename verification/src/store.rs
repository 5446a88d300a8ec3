use vstd::prelude::*;
use crate::record::{Record, RecordV};

verus! {

/// What can go wrong at the store: a conflicting write, or a transaction
/// the engine aborted.
#[derive(PartialEq, Eq, Structural, Clone, Copy, Debug)]
pub enum StoreError {
    WriteError,
    TransactionError,
}

/// Does some record of `s` carry the id `x`?
pub open spec fn spec_has_id(s: Seq<RecordV>, x: int) -> bool {
    exists|i: int| 0 <= i < s.len() && s[i].id == x
}

/// No two records of `s` share an id.
pub open spec fn spec_distinct_ids(s: Seq<RecordV>) -> bool {
    forall|i: int, j: int| 0 <= i < j < s.len() ==> s[i].id != s[j].id
}

/// The table that upserting every record of `s`, in order, into `m` leaves
/// behind: each record lands under its id, a later record overriding an
/// earlier one and the prior contents alike.
pub open spec fn spec_upsert_all(m: Map<int, RecordV>, s: Seq<RecordV>) -> Map<int, RecordV>
    decreases s.len(),
{
    if s.len() == 0 {
        m
    } else {
        spec_upsert_all(m, s.drop_last()).insert(s.last().id, s.last())
    }
}

/// The table that conditionally updating every record of `s`, in order,
/// leaves behind: a record lands under its id only where that id is already
/// present; the others are dropped.
pub open spec fn spec_apply_updates(m: Map<int, RecordV>, s: Seq<RecordV>) -> Map<int, RecordV>
    decreases s.len(),
{
    if s.len() == 0 {
        m
    } else {
        let prior = spec_apply_updates(m, s.drop_last());
        if prior.dom().contains(s.last().id) {
            prior.insert(s.last().id, s.last())
        } else {
            prior
        }
    }
}

/// A batch insert conflicts when some id is already present or the batch
/// itself repeats an id.
pub open spec fn spec_insert_conflict(m: Map<int, RecordV>, s: Seq<RecordV>) -> bool {
    (exists|i: int| 0 <= i < s.len() && m.dom().contains(s[i].id)) || !spec_distinct_ids(s)
}

/// Did the engine reject one of the `len` queued operations?  `fail_at`
/// names the rejected operation, if any; a report beyond the queue's end
/// means no queued operation was reached, so nothing failed.
pub open spec fn spec_tx_fails(fail_at: Option<usize>, len: int) -> bool {
    match fail_at {
        Some(k) => (k as int) < len,
        None => false,
    }
}

/// The ids of `ids` that are present in the table `m`, in the order given.
pub open spec fn spec_existing_ids(m: Map<int, RecordV>, ids: Seq<i32>) -> Seq<i32> {
    ids.filter(|x: i32| m.dom().contains(x as int))
}

/// Ids untouched by the batch keep their presence and their value.
pub proof fn lemma_upsert_all_absent(m: Map<int, RecordV>, s: Seq<RecordV>)
    ensures
        forall|x: int|
            !spec_has_id(s, x) ==> (#[trigger] spec_upsert_all(m, s).dom().contains(x)
                <==> m.dom().contains(x)),
        forall|x: int|
            !spec_has_id(s, x) && m.dom().contains(x) ==> #[trigger] spec_upsert_all(m, s)[x]
                == m[x],
    decreases s.len(),
{
    if s.len() > 0 {
        let d = s.drop_last();
        lemma_upsert_all_absent(m, d);
        assert forall|x: int| !spec_has_id(s, x) implies (spec_upsert_all(m, s).dom().contains(x)
            <==> m.dom().contains(x)) && (m.dom().contains(x) ==> spec_upsert_all(m, s)[x]
            == m[x]) by {
            assert(s[s.len() - 1].id == s.last().id);
            assert(x != s.last().id);
            if spec_has_id(d, x) {
                let w = choose|w: int| 0 <= w < d.len() && d[w].id == x;
                assert(s[w] == d[w]);
                assert(spec_has_id(s, x));
            }
            assert(spec_upsert_all(m, d).dom().contains(x) <==> m.dom().contains(x));
            if m.dom().contains(x) {
                assert(spec_upsert_all(m, d)[x] == m[x]);
            }
        }
    }
}

/// When ids are distinct, every record of the batch ends up in the table
/// under its id, with its value.
pub proof fn lemma_upsert_all_distinct(m: Map<int, RecordV>, s: Seq<RecordV>)
    requires
        spec_distinct_ids(s),
    ensures
        forall|i: int|
            0 <= i < s.len() ==> spec_upsert_all(m, s).dom().contains(#[trigger] s[i].id)
                && spec_upsert_all(m, s)[s[i].id] == s[i],
    decreases s.len(),
{
    if s.len() > 0 {
        let d = s.drop_last();
        assert(spec_distinct_ids(d)) by {
            assert(forall|i: int| 0 <= i < d.len() ==> d[i] == s[i]);
        }
        lemma_upsert_all_distinct(m, d);
        assert forall|i: int|
            0 <= i < s.len() implies spec_upsert_all(m, s).dom().contains(s[i].id)
            && spec_upsert_all(m, s)[s[i].id] == s[i] by {
            if i < s.len() - 1 {
                assert(d[i] == s[i]);
                assert(s[i].id != s.last().id);
            } else {
                assert(s[i] == s.last());
            }
        }
    }
}

/// Replacing a record at its position, id kept, moves the table by one
/// insert, provided no later record shares that id.
proof fn lemma_upsert_all_update(m: Map<int, RecordV>, s: Seq<RecordV>, i: int, r: RecordV)
    requires
        0 <= i < s.len(),
        r.id == s[i].id,
        forall|j: int| i < j < s.len() ==> s[j].id != s[i].id,
    ensures
        spec_upsert_all(m, s.update(i, r)) == spec_upsert_all(m, s).insert(r.id, r),
    decreases s.len(),
{
    let u = s.update(i, r);
    if i == s.len() - 1 {
        assert(u.drop_last() =~= s.drop_last());
        assert(u.last() == r);
        assert(spec_upsert_all(m, s).insert(r.id, r) =~= spec_upsert_all(m, s.drop_last()).insert(
            r.id,
            r,
        ));
    } else {
        assert(u.drop_last() =~= s.drop_last().update(i, r));
        assert(u.last() == s.last());
        assert(forall|j: int|
            i < j < s.drop_last().len() ==> s.drop_last()[j].id == s[j].id);
        assert(s.drop_last()[i] == s[i]);
        lemma_upsert_all_update(m, s.drop_last(), i, r);
        assert(s.last().id != r.id);
        assert(spec_upsert_all(m, s.drop_last()).insert(r.id, r).insert(s.last().id, s.last())
            =~= spec_upsert_all(m, s.drop_last()).insert(s.last().id, s.last()).insert(r.id, r));
    }
}

/// With distinct ids and an empty start, the table holds exactly one row
/// per record.
proof fn lemma_upsert_all_len(s: Seq<RecordV>)
    requires
        spec_distinct_ids(s),
    ensures
        spec_upsert_all(Map::empty(), s).dom().finite(),
        spec_upsert_all(Map::empty(), s).dom().len() == s.len(),
    decreases s.len(),
{
    if s.len() > 0 {
        let d = s.drop_last();
        assert(spec_distinct_ids(d)) by {
            assert(forall|i: int| 0 <= i < d.len() ==> d[i] == s[i]);
        }
        lemma_upsert_all_len(d);
        lemma_upsert_all_absent(Map::empty(), d);
        assert(!spec_has_id(d, s.last().id));
        assert(!spec_upsert_all(Map::<int, RecordV>::empty(), d).dom().contains(s.last().id));
    }
}

/// In-memory model of the benchmark table: rows keyed by their record id.
pub struct Store {
    rows: Vec<Record>,
}

impl View for Store {
    type V = Map<int, RecordV>;

    closed spec fn view(&self) -> Map<int, RecordV> {
        spec_upsert_all(Map::empty(), self.rows.deep_view())
    }
}

impl Store {
    /// The rows hold no id twice.
    pub closed spec fn wf(self) -> bool {
        spec_distinct_ids(self.rows.deep_view())
    }

    /// The empty store.
    pub fn new() -> (s: Store)
        ensures
            s.wf(),
            s@ == Map::<int, RecordV>::empty(),
    {
        let s = Store { rows: Vec::new() };
        proof {
            assert(s.rows.deep_view() =~= Seq::<RecordV>::empty());
        }
        s
    }

    /// How many rows the store holds.
    pub fn len(&self) -> (n: usize)
        requires
            self.wf(),
        ensures
            n as int == self@.dom().len(),
            self@.dom().finite(),
    {
        proof {
            lemma_upsert_all_len(self.rows.deep_view());
        }
        self.rows.len()
    }

    /// Does a row with this id exist?
    pub fn contains_id(&self, x: i32) -> (r: bool)
        requires
            self.wf(),
        ensures
            r == self@.dom().contains(x as int),
    {
        let ghost rv = self.rows.deep_view();
        let mut i: usize = 0;
        while i < self.rows.len()
            invariant
                self.wf(),
                rv == self.rows.deep_view(),
                rv.len() == self.rows@.len(),
                0 <= i <= self.rows@.len(),
                forall|j: int| 0 <= j < i as int ==> #[trigger] rv[j].id != x as int,
            decreases self.rows@.len() - i,
        {
            if self.rows[i].id == x {
                proof {
                    assert(rv[i as int] == self.rows@[i as int]@);
                    assert(spec_has_id(rv, x as int));
                    lemma_upsert_all_distinct(Map::empty(), rv);
                    let w = choose|w: int| 0 <= w < rv.len() && rv[w].id == x as int;
                    assert(self@.dom().contains(rv[w].id));
                }
                return true;
            }
            proof {
                assert(rv[i as int] == self.rows@[i as int]@);
            }
            i = i + 1;
        }
        proof {
            assert(!spec_has_id(rv, x as int));
            lemma_upsert_all_absent(Map::empty(), rv);
        }
        false
    }

    /// The row with this id, if any.
    pub fn get(&self, x: i32) -> (r: Option<&Record>)
        requires
            self.wf(),
        ensures
            match r {
                Some(rec) => self@.dom().contains(x as int) && rec@ == self@[x as int],
                None => !self@.dom().contains(x as int),
            },
    {
        let ghost rv = self.rows.deep_view();
        let mut i: usize = 0;
        while i < self.rows.len()
            invariant
                self.wf(),
                rv == self.rows.deep_view(),
                rv.len() == self.rows@.len(),
                0 <= i <= self.rows@.len(),
                forall|j: int| 0 <= j < i as int ==> #[trigger] rv[j].id != x as int,
            decreases self.rows@.len() - i,
        {
            proof {
                assert(rv[i as int] == self.rows@[i as int]@);
            }
            if self.rows[i].id == x {
                proof {
                    lemma_upsert_all_distinct(Map::empty(), rv);
                }
                return Some(&self.rows[i]);
            }
            i = i + 1;
        }
        proof {
            assert(!spec_has_id(rv, x as int));
            lemma_upsert_all_absent(Map::empty(), rv);
        }
        None
    }

    /// Removes every row.
    pub fn delete_all(&mut self)
        ensures
            final(self).wf(),
            final(self)@ == Map::<int, RecordV>::empty(),
    {
        self.rows = Vec::new();
        proof {
            assert(self.rows.deep_view() =~= Seq::<RecordV>::empty());
        }
    }

    /// Inserts the record when its id is absent, else overwrites that row
    /// entirely: the upsert primitive.
    pub fn upsert(&mut self, rec: &Record)
        requires
            old(self).wf(),
        ensures
            final(self).wf(),
            final(self)@ == old(self)@.insert(rec@.id, rec@),
    {
        let ghost rv0 = self.rows.deep_view();
        let mut i: usize = 0;
        while i < self.rows.len()
            invariant
                old(self).wf(),
                *self == *old(self),
                rv0 == self.rows.deep_view(),
                rv0.len() == self.rows@.len(),
                0 <= i <= self.rows@.len(),
                forall|j: int| 0 <= j < i as int ==> #[trigger] rv0[j].id != rec@.id,
            decreases self.rows@.len() - i,
        {
            proof {
                assert(rv0[i as int] == self.rows@[i as int]@);
            }
            if self.rows[i].id == rec.id {
                let replacement = rec.clone();
                self.rows[i] = replacement;
                proof {
                    assert(self.rows.deep_view() =~= rv0.update(i as int, rec@));
                    assert(forall|j: int| (i as int) < j < rv0.len() ==> rv0[j].id != rv0[i as int].id);
                    lemma_upsert_all_update(Map::empty(), rv0, i as int, rec@);
                    assert(spec_distinct_ids(rv0.update(i as int, rec@)));
                }
                return ;
            }
            i = i + 1;
        }
        let added = rec.clone();
        self.rows.push(added);
        proof {
            assert(self.rows.deep_view().drop_last() =~= rv0);
            assert(self.rows.deep_view().last() == rec@);
            assert(self.rows.deep_view() =~= rv0.push(rec@));
            assert(!spec_has_id(rv0, rec@.id));
            assert(spec_distinct_ids(rv0.push(rec@)));
        }
    }

    /// Overwrites the row that carries the record's id; leaves the store
    /// unchanged when that id is absent.
    pub fn conditional_update(&mut self, rec: &Record)
        requires
            old(self).wf(),
        ensures
            final(self).wf(),
            final(self)@ == if old(self)@.dom().contains(rec@.id) {
                old(self)@.insert(rec@.id, rec@)
            } else {
                old(self)@
            },
    {
        if self.contains_id(rec.id) {
            self.upsert(rec);
        }
    }

    /// Upserts every record of the batch, in order: insert-or-fully-
    /// overwrite, usable with a batch of any size.
    pub fn bulk_replace(&mut self, batch: &Vec<Record>)
        requires
            old(self).wf(),
        ensures
            final(self).wf(),
            final(self)@ == spec_upsert_all(old(self)@, batch.deep_view()),
    {
        let ghost bv = batch.deep_view();
        let mut i: usize = 0;
        while i < batch.len()
            invariant
                self.wf(),
                bv == batch.deep_view(),
                bv.len() == batch@.len(),
                0 <= i <= batch@.len(),
                self@ == spec_upsert_all(old(self)@, bv.take(i as int)),
            decreases batch@.len() - i,
        {
            proof {
                assert(bv[i as int] == batch@[i as int]@);
            }
            self.upsert(&batch[i]);
            proof {
                let t = bv.take(i as int + 1);
                assert(t.drop_last() =~= bv.take(i as int));
                assert(t.last() == bv[i as int]);
            }
            i = i + 1;
        }
        proof {
            assert(bv.take(bv.len() as int) =~= bv);
        }
    }

    /// Inserts every record of the batch; refuses the whole batch, leaving
    /// the store unchanged, when any id is already present or the batch
    /// repeats an id.
    pub fn batch_insert(&mut self, batch: &Vec<Record>) -> (r: Result<(), StoreError>)
        requires
            old(self).wf(),
        ensures
            final(self).wf(),
            r is Ok <==> !spec_insert_conflict(old(self)@, batch.deep_view()),
            r is Ok ==> final(self)@ == spec_upsert_all(old(self)@, batch.deep_view()),
            r is Err ==> final(self)@ == old(self)@ && r == Result::<(), StoreError>::Err(
                StoreError::WriteError,
            ),
    {
        let ghost bv = batch.deep_view();
        let mut i: usize = 0;
        while i < batch.len()
            invariant
                self.wf(),
                *self == *old(self),
                bv == batch.deep_view(),
                bv.len() == batch@.len(),
                0 <= i <= batch@.len(),
                forall|k: int| 0 <= k < i as int ==> !self@.dom().contains(#[trigger] bv[k].id),
                forall|k: int, l: int| 0 <= k < l < i as int ==> bv[k].id != bv[l].id,
            decreases batch@.len() - i,
        {
            proof {
                assert(bv[i as int] == batch@[i as int]@);
            }
            if self.contains_id(batch[i].id) {
                return Err(StoreError::WriteError);
            }
            let mut j: usize = 0;
            while j < i
                invariant
                    self.wf(),
                    *self == *old(self),
                    bv == batch.deep_view(),
                    bv.len() == batch@.len(),
                    0 <= j <= i as int,
                    (i as int) < batch@.len(),
                    forall|k: int| 0 <= k < j as int ==> #[trigger] bv[k].id != bv[i as int].id,
                decreases i - j,
            {
                proof {
                    assert(bv[j as int] == batch@[j as int]@);
                    assert(bv[i as int] == batch@[i as int]@);
                }
                if batch[j].id == batch[i].id {
                    return Err(StoreError::WriteError);
                }
                j = j + 1;
            }
            i = i + 1;
        }
        proof {
            assert(spec_distinct_ids(bv));
            assert(!spec_insert_conflict(old(self)@, bv));
        }
        self.bulk_replace(batch);
        Ok(())
    }

    /// The given ids that have a row, in the order given.
    pub fn find_existing(&self, ids: &Vec<i32>) -> (r: Vec<i32>)
        requires
            self.wf(),
        ensures
            r@ == spec_existing_ids(self@, ids@),
    {
        let mut out: Vec<i32> = Vec::new();
        let mut i: usize = 0;
        while i < ids.len()
            invariant
                self.wf(),
                0 <= i <= ids@.len(),
                out@ == spec_existing_ids(self@, ids@.take(i as int)),
            decreases ids@.len() - i,
        {
            let present = self.contains_id(ids[i]);
            proof {
                let t = ids@.take(i as int + 1);
                assert(t.drop_last() =~= ids@.take(i as int));
                assert(t.last() == ids@[i as int]);
                reveal_with_fuel(Seq::<_>::filter, 2);
                if present {
                    assert(spec_existing_ids(self@, t) =~= spec_existing_ids(
                        self@,
                        ids@.take(i as int),
                    ).push(ids@[i as int]));
                } else {
                    assert(spec_existing_ids(self@, t) =~= spec_existing_ids(
                        self@,
                        ids@.take(i as int),
                    ));
                }
            }
            if present {
                out.push(ids[i]);
            }
            i = i + 1;
        }
        proof {
            assert(ids@.take(ids@.len() as int) =~= ids@);
        }
        out
    }

    /// Applies the queued conditional updates in order, all or nothing:
    /// `fail_at` names the queued operation the engine rejected, if any,
    /// and any such rejection leaves the whole store untouched.
    pub fn run_in_transaction(&mut self, updates: &Vec<Record>, fail_at: Option<usize>) -> (r:
        Result<(), StoreError>)
        requires
            old(self).wf(),
        ensures
            final(self).wf(),
            spec_tx_fails(fail_at, updates@.len() as int) ==> final(self)@ == old(self)@ && r
                == Result::<(), StoreError>::Err(StoreError::TransactionError),
            !spec_tx_fails(fail_at, updates@.len() as int) ==> final(self)@ == spec_apply_updates(
                old(self)@,
                updates.deep_view(),
            ) && r == Result::<(), StoreError>::Ok(()),
    {
        let failed: bool = match fail_at {
            Some(k) => k < updates.len(),
            None => false,
        };
        if failed {
            return Err(StoreError::TransactionError);
        }
        let ghost uv = updates.deep_view();
        let mut i: usize = 0;
        while i < updates.len()
            invariant
                self.wf(),
                uv == updates.deep_view(),
                uv.len() == updates@.len(),
                0 <= i <= updates@.len(),
                self@ == spec_apply_updates(old(self)@, uv.take(i as int)),
            decreases updates@.len() - i,
        {
            proof {
                assert(uv[i as int] == updates@[i as int]@);
            }
            self.conditional_update(&updates[i]);
            proof {
                let t = uv.take(i as int + 1);
                assert(t.drop_last() =~= uv.take(i as int));
                assert(t.last() == uv[i as int]);
            }
            i = i + 1;
        }
        proof {
            assert(uv.take(uv.len() as int) =~= uv);
        }
        Ok(())
    }
}

/// Law: replacing the same batch twice leaves the same table as replacing
/// it once.
pub proof fn lemma_bulk_replace_idempotent(m: Map<int, RecordV>, batch: Seq<RecordV>)
    ensures
        spec_upsert_all(spec_upsert_all(m, batch), batch) == spec_upsert_all(m, batch),
{
    lemma_upsert_all_union(m, batch);
    lemma_upsert_all_union(spec_upsert_all(m, batch), batch);
    let t = spec_upsert_all(Map::empty(), batch);
    assert(m.union_prefer_right(t).union_prefer_right(t) =~= m.union_prefer_right(t));
}

/// Upserting a batch is one map union: the batch's own table wins over the
/// prior contents.
pub proof fn lemma_upsert_all_union(m: Map<int, RecordV>, s: Seq<RecordV>)
    ensures
        spec_upsert_all(m, s) == m.union_prefer_right(spec_upsert_all(Map::empty(), s)),
    decreases s.len(),
{
    if s.len() == 0 {
        assert(m.union_prefer_right(Map::<int, RecordV>::empty()) =~= m);
    } else {
        lemma_upsert_all_union(m, s.drop_last());
        let t = spec_upsert_all(Map::<int, RecordV>::empty(), s.drop_last());
        assert(m.union_prefer_right(t).insert(s.last().id, s.last()) =~= m.union_prefer_right(
            t.insert(s.last().id, s.last()),
        ));
    }
}

} // verus!
