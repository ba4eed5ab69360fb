use vstd::prelude::*;
use vstd::string::StringExecFns;

use crate::model::{CompareMode, CompareSummary, DiffItem};

verus! {

/// The export document of one comparison.
pub struct ExportReport {
    pub version: String,
    pub left_root: String,
    pub right_root: String,
    pub mode: CompareMode,
    pub summary: CompareSummary,
    pub diffs: Vec<DiffItem>,
    /// RFC 3339 time, UTC.
    pub generated_at: String,
}

/// What `chrono` writes for the UTC time `secs` seconds and `nanos`
/// nanoseconds after the Unix epoch, in RFC 3339; `None` when that time is
/// out of its range.
pub uninterp spec fn rfc3339_of(secs: i64, nanos: u32) -> Option<Seq<char>>;

/// Relies on `chrono::DateTime::<Utc>::from_timestamp`, which gives `None`
/// for a time out of its range, and on `DateTime::to_rfc3339`, which only
/// writes into a `String`. Both depend on their arguments alone.
#[verifier::external_body]
fn rfc3339_utc(secs: i64, nanos: u32) -> (r: Option<String>)
    ensures
        match r {
            Some(s) => rfc3339_of(secs, nanos) == Some(s@),
            None => rfc3339_of(secs, nanos) is None,
        },
{
    match chrono::DateTime::<chrono::Utc>::from_timestamp(secs, nanos) {
        Some(t) => Some(t.to_rfc3339()),
        None => None,
    }
}

/// The export document for a comparison, generated at `generated_at`.
pub fn build_report(
    left_root: &str,
    right_root: &str,
    mode: CompareMode,
    summary: CompareSummary,
    diffs: Vec<DiffItem>,
    generated_at: String,
) -> (r: ExportReport)
    ensures
        r.version@ == "0.1.0"@,
        r.left_root@ == left_root@,
        r.right_root@ == right_root@,
        r.mode == mode,
        r.summary == summary,
        r.diffs@ == diffs@,
        r.generated_at == generated_at,
{
    let version = "0.1.0";
    ExportReport {
        version: String::from_str(version),
        left_root: String::from_str(left_root),
        right_root: String::from_str(right_root),
        mode,
        summary,
        diffs,
        generated_at,
    }
}

/// The export document for a comparison, stamped with the UTC time
/// `unix_secs` seconds and `nanos` nanoseconds after the Unix epoch; `None`
/// when that time cannot be written.
pub fn generate_report(
    left_root: &str,
    right_root: &str,
    mode: CompareMode,
    summary: CompareSummary,
    diffs: Vec<DiffItem>,
    unix_secs: i64,
    nanos: u32,
) -> (r: Option<ExportReport>)
    ensures
        r is None <==> rfc3339_of(unix_secs, nanos) is None,
        r matches Some(rep) ==> {
            &&& rep.version@ == "0.1.0"@
            &&& rep.left_root@ == left_root@
            &&& rep.right_root@ == right_root@
            &&& rep.mode == mode
            &&& rep.summary == summary
            &&& rep.diffs@ == diffs@
            &&& rfc3339_of(unix_secs, nanos) == Some(rep.generated_at@)
        },
{
    match rfc3339_utc(unix_secs, nanos) {
        Some(stamp) => Some(build_report(left_root, right_root, mode, summary, diffs, stamp)),
        None => None,
    }
}

/// The outcome of the last full comparison, kept for retrieval and export.
pub struct LastCompareResult {
    pub diffs: Vec<DiffItem>,
    pub summary: CompareSummary,
    pub left_root: String,
    pub right_root: String,
    pub mode: CompareMode,
}

} // verus!
