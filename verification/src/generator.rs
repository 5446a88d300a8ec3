use vstd::prelude::*;
use vstd::string::StringExecFns;
use crate::digits::{spec_dec, decimal_string_i32};
use crate::record::{Record, RecordV};

verus! {

/// One entry of the benchmark matrix: how many records one batch holds and
/// how many batches one strategy run applies.
pub struct Config {
    pub batch_count: i32,
    pub repeat_count: i32,
}

impl Config {
    /// A configuration is meaningful when both counts are positive and the
    /// whole id range it touches, the overflow-shifted half included, stays
    /// within `i32`.
    pub open spec fn wf(self) -> bool {
        &&& 0 < self.batch_count
        &&& 0 < self.repeat_count
        &&& self.batch_count * self.repeat_count <= 0x3fff_ffff
    }

    /// Total number of records one strategy run touches.
    pub open spec fn spec_total(self) -> int {
        self.batch_count * self.repeat_count
    }
}

/// Total record count of a configuration, `batch_count * repeat_count`.
pub fn get_all_data_count(cfg: &Config) -> (r: i32)
    requires
        cfg.wf(),
    ensures
        r as int == cfg.spec_total(),
{
    cfg.batch_count * cfg.repeat_count
}

/// Name of the generated record with this id and label suffix.
pub open spec fn spec_gen_name(id: int, suffix: Seq<char>) -> Seq<char> {
    "name"@ + spec_dec(id) + suffix
}

/// Email of the generated record: its name followed by the fixed domain.
pub open spec fn spec_gen_email(id: int, suffix: Seq<char>) -> Seq<char> {
    spec_gen_name(id, suffix) + "@github.com"@
}

/// The whole generated record for this id and label suffix.
pub open spec fn spec_gen_record(id: int, suffix: Seq<char>) -> RecordV {
    RecordV { id: id, name: spec_gen_name(id, suffix), email: spec_gen_email(id, suffix) }
}

/// Builds the batch of records with ids `start_index .. start_index + count`,
/// in increasing id order, each with the generated name and email for its id.
pub fn create_update_users(start_index: i32, count: i32, suffix: &str) -> (r: Vec<Record>)
    requires
        0 <= count,
        start_index + count <= i32::MAX + 1,
    ensures
        r@.len() == count as int,
        forall|k: int|
            0 <= k < count as int ==> #[trigger] r@[k]@ == spec_gen_record(
                start_index + k,
                suffix@,
            ),
{
    let mut out: Vec<Record> = Vec::new();
    let mut k: i32 = 0;
    while k < count
        invariant
            0 <= k <= count,
            start_index + count <= i32::MAX + 1,
            out@.len() == k as int,
            forall|j: int|
                0 <= j < k as int ==> #[trigger] out@[j]@ == spec_gen_record(
                    start_index + j,
                    suffix@,
                ),
        decreases count - k,
    {
        let id: i32 = start_index + k;
        let digits = decimal_string_i32(id);
        let mut new_name = String::from_str("name");
        new_name.append(digits.as_str());
        new_name.append(suffix);
        let mut new_email = new_name.clone();
        new_email.append("@github.com");
        proof {
            assert(new_name@ =~= spec_gen_name(id as int, suffix@));
            assert(new_email@ =~= spec_gen_email(id as int, suffix@));
        }
        out.push(Record { id: id, name: new_name, email: new_email });
        k = k + 1;
    }
    out
}

/// Batches for the plain strategies: `repeat_count` batches of
/// `batch_count` records each, batch `b` covering ids
/// `b * batch_count + 1 .. (b + 1) * batch_count`, all with the given suffix.
pub fn create_all_users_with(cfg: &Config, suffix: &str) -> (r: Vec<Vec<Record>>)
    requires
        cfg.wf(),
    ensures
        r@.len() == cfg.repeat_count as int,
        forall|b: int|
            0 <= b < cfg.repeat_count as int ==> (#[trigger] r@[b])@.len()
                == cfg.batch_count as int,
        forall|b: int, k: int|
            0 <= b < cfg.repeat_count as int && 0 <= k < cfg.batch_count as int
                ==> (#[trigger] r@[b]@[k])@ == spec_gen_record(
                b * cfg.batch_count + 1 + k,
                suffix@,
            ),
{
    let mut all: Vec<Vec<Record>> = Vec::new();
    let mut b: i32 = 0;
    while b < cfg.repeat_count
        invariant
            cfg.wf(),
            0 <= b <= cfg.repeat_count,
            all@.len() == b as int,
            forall|i: int|
                0 <= i < b as int ==> (#[trigger] all@[i])@.len() == cfg.batch_count as int,
            forall|i: int, k: int|
                0 <= i < b as int && 0 <= k < cfg.batch_count as int ==> (#[trigger] all@[i]@[k])@
                    == spec_gen_record(i * cfg.batch_count + 1 + k, suffix@),
        decreases cfg.repeat_count - b,
    {
        proof {
            assert(0 <= b * cfg.batch_count && b * cfg.batch_count + cfg.batch_count
                <= cfg.batch_count * cfg.repeat_count) by (nonlinear_arith)
                requires
                    0 <= b < cfg.repeat_count,
                    0 < cfg.batch_count,
            ;
        }
        let start_index: i32 = b * cfg.batch_count + 1;
        let new_users = create_update_users(start_index, cfg.batch_count, suffix);
        all.push(new_users);
        b = b + 1;
    }
    all
}

/// Batches for the plain strategies, labelled with the first update suffix.
pub fn create_all_users(cfg: &Config) -> (r: Vec<Vec<Record>>)
    requires
        cfg.wf(),
    ensures
        r@.len() == cfg.repeat_count as int,
        forall|b: int|
            0 <= b < cfg.repeat_count as int ==> (#[trigger] r@[b])@.len()
                == cfg.batch_count as int,
        forall|b: int, k: int|
            0 <= b < cfg.repeat_count as int && 0 <= k < cfg.batch_count as int
                ==> (#[trigger] r@[b]@[k])@ == spec_gen_record(
                b * cfg.batch_count + 1 + k,
                "update1"@,
            ),
{
    create_all_users_with(cfg, "update1")
}

/// Where the overflow split sends an id: ids in the upper half of their
/// batch slot are shifted past the whole persisted range.
pub open spec fn spec_remap_id(id: int, batch_count: int, total: int) -> int {
    if id % batch_count >= batch_count / 2 {
        id + total
    } else {
        id
    }
}

/// The generated record for `id`, with its id (and only its id) moved by
/// the overflow split; name and email still carry the original id.
pub open spec fn spec_remap_record(id: int, batch_count: int, total: int, suffix: Seq<char>)
    -> RecordV {
    RecordV {
        id: spec_remap_id(id, batch_count, total),
        name: spec_gen_name(id, suffix),
        email: spec_gen_email(id, suffix),
    }
}

/// Batches for the diff-then-apply strategies: as [`create_all_users`], but
/// with the second update suffix and with each id in the upper half of its
/// batch slot shifted by the configuration's total record count, so that
/// about half of every batch falls outside the persisted id range.
pub fn create_all_update_users(cfg: &Config) -> (r: Vec<Vec<Record>>)
    requires
        cfg.wf(),
    ensures
        r@.len() == cfg.repeat_count as int,
        forall|b: int|
            0 <= b < cfg.repeat_count as int ==> (#[trigger] r@[b])@.len()
                == cfg.batch_count as int,
        forall|b: int, k: int|
            0 <= b < cfg.repeat_count as int && 0 <= k < cfg.batch_count as int
                ==> (#[trigger] r@[b]@[k])@ == spec_remap_record(
                b * cfg.batch_count + 1 + k,
                cfg.batch_count as int,
                cfg.spec_total(),
                "update2"@,
            ),
{
    let total: i32 = get_all_data_count(cfg);
    let base = create_all_users_with(cfg, "update2");
    let mut all: Vec<Vec<Record>> = Vec::new();
    let mut b: usize = 0;
    while b < base.len()
        invariant
            cfg.wf(),
            total as int == cfg.spec_total(),
            base@.len() == cfg.repeat_count as int,
            forall|i: int|
                0 <= i < cfg.repeat_count as int ==> (#[trigger] base@[i])@.len()
                    == cfg.batch_count as int,
            forall|i: int, k: int|
                0 <= i < cfg.repeat_count as int && 0 <= k < cfg.batch_count as int
                    ==> (#[trigger] base@[i]@[k])@ == spec_gen_record(
                    i * cfg.batch_count + 1 + k,
                    "update2"@,
                ),
            0 <= b <= base@.len(),
            all@.len() == b as int,
            forall|i: int|
                0 <= i < b as int ==> (#[trigger] all@[i])@.len() == cfg.batch_count as int,
            forall|i: int, k: int|
                0 <= i < b as int && 0 <= k < cfg.batch_count as int ==> (#[trigger] all@[i]@[k])@
                    == spec_remap_record(
                    i * cfg.batch_count + 1 + k,
                    cfg.batch_count as int,
                    cfg.spec_total(),
                    "update2"@,
                ),
        decreases base@.len() - b,
    {
        let batch = &base[b];
        let mut remapped: Vec<Record> = Vec::new();
        let mut j: usize = 0;
        proof {
            assert(b * cfg.batch_count + cfg.batch_count <= cfg.batch_count * cfg.repeat_count)
                by (nonlinear_arith)
                requires
                    0 <= b < cfg.repeat_count,
                    0 < cfg.batch_count,
            ;
        }
        while j < batch.len()
            invariant
                cfg.wf(),
                total as int == cfg.spec_total(),
                0 <= b < cfg.repeat_count as int,
                batch@.len() == cfg.batch_count as int,
                forall|k: int|
                    0 <= k < cfg.batch_count as int ==> #[trigger] batch@[k]@ == spec_gen_record(
                        b * cfg.batch_count + 1 + k,
                        "update2"@,
                    ),
                b * cfg.batch_count + cfg.batch_count <= cfg.batch_count * cfg.repeat_count,
                0 <= j <= batch@.len(),
                remapped@.len() == j as int,
                forall|k: int|
                    0 <= k < j as int ==> #[trigger] remapped@[k]@ == spec_remap_record(
                        b * cfg.batch_count + 1 + k,
                        cfg.batch_count as int,
                        cfg.spec_total(),
                        "update2"@,
                    ),
            decreases batch@.len() - j,
        {
            let u = &batch[j];
            proof {
                assert(batch@[j as int]@ == spec_gen_record(
                    b * cfg.batch_count + 1 + j,
                    "update2"@,
                ));
                assert(0 <= u.id as int <= cfg.spec_total());
            }
            let new_id: i32 = if u.id % cfg.batch_count >= cfg.batch_count / 2 {
                u.id + total
            } else {
                u.id
            };
            remapped.push(Record { id: new_id, name: u.name.clone(), email: u.email.clone() });
            proof {
                assert(remapped@[j as int]@ == spec_remap_record(
                    b * cfg.batch_count + 1 + j,
                    cfg.batch_count as int,
                    cfg.spec_total(),
                    "update2"@,
                ));
            }
            j = j + 1;
        }
        all.push(remapped);
        b = b + 1;
    }
    all
}

} // verus!
