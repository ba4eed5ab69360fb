use split_compare::export::{build_report, generate_report};
use split_compare::model::{CompareMode, CompareSummary};

#[test]
fn report_is_stamped_with_the_given_time() {
    let mut summary = CompareSummary::default();
    summary.same = 1;
    let report = generate_report("/left", "/right", CompareMode::Smart, summary, vec![], 0, 0).unwrap();
    assert_eq!(report.version, "0.1.0");
    assert_eq!(report.left_root, "/left");
    assert_eq!(report.right_root, "/right");
    assert_eq!(report.mode, CompareMode::Smart);
    assert_eq!(report.summary.same, 1);
    assert_eq!(report.generated_at, "1970-01-01T00:00:00+00:00");
    let later = generate_report("/l", "/r", CompareMode::Structure, summary, vec![], 1431648000, 0).unwrap();
    assert_eq!(later.generated_at, "2015-05-15T00:00:00+00:00");
}

#[test]
fn report_time_out_of_range_gives_none() {
    let summary = CompareSummary::default();
    assert!(generate_report("/l", "/r", CompareMode::Smart, summary, vec![], i64::MAX, 0).is_none());
}

#[test]
fn built_report_keeps_its_fields() {
    let summary = CompareSummary::default();
    let report = build_report("/a", "/b", CompareMode::Structure, summary, vec![], "then".to_string());
    assert_eq!(report.generated_at, "then");
    assert_eq!(report.version, "0.1.0");
    assert!(report.diffs.is_empty());
}
