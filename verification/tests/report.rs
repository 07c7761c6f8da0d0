use lib::report::{summarize, FileFacts, Severity, SeverityCounts, WarningFacts};

fn warn(rule: &str, severity: Severity) -> WarningFacts {
    WarningFacts { rule_id: rule.to_string(), severity }
}

#[test]
fn the_summary_counts_warnings_by_rule_and_severity() {
    let files = vec![
        FileFacts { warnings: vec![warn("stale-closure", Severity::Error), warn("missing-deps", Severity::Warning)], parse_error: false },
        FileFacts { warnings: vec![], parse_error: true },
        FileFacts { warnings: vec![], parse_error: false },
        FileFacts { warnings: vec![warn("stale-closure", Severity::Info)], parse_error: false },
    ];
    let s = summarize(&files);
    assert_eq!(s.total, 3);
    assert_eq!(s.files_analyzed, 4);
    assert_eq!(s.files_with_warnings, 3, "a parse error counts as a flagged file");
    assert_eq!(s.by_rule, vec![("stale-closure".to_string(), 2), ("missing-deps".to_string(), 1)]);
    assert_eq!(s.by_severity, SeverityCounts { errors: 1, warnings: 1, infos: 1 });
}

#[test]
fn an_empty_run_counts_nothing() {
    let s = summarize(&vec![]);
    assert_eq!(s.total, 0);
    assert_eq!(s.files_analyzed, 0);
    assert!(s.by_rule.is_empty());
}
