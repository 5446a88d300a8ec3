use vstd::prelude::*;
use vstd::string::StringExecFns;
use crate::digits::{spec_udec, decimal_string_u64};

verus! {

#[verifier::external_type_specification]
#[verifier::external_body]
pub struct ExInstant(std::time::Instant);

/// Relies on std::time::Instant::now: an opaque monotonic timestamp whose
/// value depends on the clock, so nothing is promised of it.
#[verifier::external_body]
fn instant_now() -> std::time::Instant {
    std::time::Instant::now()
}

/// Relies on std::time::Instant::elapsed: how long ago `start` was
/// captured; the value depends on the clock, so nothing is promised of it.
#[verifier::external_body]
fn instant_elapsed(start: &std::time::Instant) -> std::time::Duration {
    start.elapsed()
}

/// Relies on std::time::Duration::as_millis: the duration in whole
/// milliseconds.  The duration value is opaque here, so nothing is
/// promised of the result.
#[verifier::external_body]
fn duration_as_millis(d: &std::time::Duration) -> u128 {
    d.as_millis()
}

/// The message a timing scope emits: the label, then the elapsed
/// milliseconds in decimal.
pub open spec fn spec_report_line(label: Seq<char>, elapsed_ms: nat) -> Seq<char> {
    label + " cost time: "@ + spec_udec(elapsed_ms) + " ms"@
}

/// Builds the timing message for a label and an elapsed-milliseconds value.
pub fn report_line(label: &str, elapsed_ms: u64) -> (r: String)
    ensures
        r@ == spec_report_line(label@, elapsed_ms as nat),
{
    let mut out = String::from_str(label);
    out.append(" cost time: ");
    let digits = decimal_string_u64(elapsed_ms);
    out.append(digits.as_str());
    out.append(" ms");
    proof {
        assert(out@ =~= spec_report_line(label@, elapsed_ms as nat));
    }
    out
}

/// Scoped stopwatch: captures a monotonic start instant and a label on
/// acquisition; on release it reports the elapsed milliseconds under that
/// label.
pub struct TimeRecorder {
    start_time: std::time::Instant,
    label: String,
}

impl TimeRecorder {
    /// The label the recorder was acquired with.
    pub closed spec fn spec_label(self) -> Seq<char> {
        self.label@
    }

    /// Starts a timing scope over the given label.
    pub fn new(label: &str) -> (r: TimeRecorder)
        ensures
            r.spec_label() == label@,
    {
        TimeRecorder { start_time: instant_now(), label: String::from_str(label) }
    }

    /// The message to emit when the scope is released: the label, then the
    /// milliseconds elapsed since acquisition.  The elapsed value depends
    /// on the clock, so only the message's shape is promised.
    pub fn release_message(&self) -> (r: String)
        ensures
            exists|ms: nat| r@ == spec_report_line(self.spec_label(), ms),
    {
        let duration = instant_elapsed(&self.start_time);
        let millis: u128 = duration_as_millis(&duration);
        let ms: u64 = if millis > u64::MAX as u128 {
            u64::MAX
        } else {
            millis as u64
        };
        let line = report_line(self.label.as_str(), ms);
        proof {
            assert(line@ == spec_report_line(self.spec_label(), ms as nat));
        }
        line
    }
}

} // verus!
