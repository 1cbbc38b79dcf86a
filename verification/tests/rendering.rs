use covrs::model::FileDiffCoverage;
use covrs::report::{DiffCoverageReport, MarkdownFormatter, Rate, TextFormatter};

fn report_all_covered() -> DiffCoverageReport {
    DiffCoverageReport {
        diff_files: 1,
        diff_lines: 10,
        files: vec![],
        total_covered: 10,
        total_instrumentable: 10,
        total_rate: Some(Rate { covered: 85, total: 100 }),
        file_rates: Vec::new(),
        sha: Some("abc1234def".to_string()),
    }
}

#[test]
fn test_format_markdown_all_covered() {
    let report = report_all_covered();
    let body = report.format(&MarkdownFormatter);
    assert!(body.contains("Diff Coverage: 100.0%"));
    assert!(body.contains("All diff lines are covered!"));
    assert!(body.contains("85.0%"));
    assert!(body.contains("abc1234"));
}

#[test]
fn test_format_markdown_with_misses() {
    let report = DiffCoverageReport {
        diff_files: 1,
        diff_lines: 5,
        files: vec![FileDiffCoverage {
            path: "src/foo.rs".to_string(),
            covered_lines: vec![1, 2, 3],
            missed_lines: vec![5, 6],
        }],
        total_covered: 3,
        total_instrumentable: 5,
        total_rate: None,
        file_rates: vec![("src/foo.rs".to_string(), Rate { covered: 3, total: 4 })],
        sha: None,
    };
    let body = report.format(&MarkdownFormatter);
    assert!(body.contains("60.0%"));
    assert!(body.contains("src/foo.rs"));
    assert!(body.contains("5-6"));
    assert!(body.contains("Missed lines"));
    // Total file coverage column
    assert!(body.contains("75%"));
}

#[test]
fn test_format_markdown_with_misses_linked() {
    let report = DiffCoverageReport {
        diff_files: 1,
        diff_lines: 5,
        files: vec![FileDiffCoverage {
            path: "src/foo.rs".to_string(),
            covered_lines: vec![1, 2, 3],
            missed_lines: vec![5, 6],
        }],
        total_covered: 3,
        total_instrumentable: 5,
        total_rate: None,
        file_rates: Vec::new(),
        sha: Some("abc1234def".to_string()),
    };
    let body = report.format(&MarkdownFormatter);
    assert!(body.contains("[5-6](../blob/abc1234def/src/foo.rs#L5-L6)"));
}

#[test]
fn test_format_with_trait() {
    let report = DiffCoverageReport {
        diff_files: 1,
        diff_lines: 5,
        files: vec![],
        total_covered: 5,
        total_instrumentable: 5,
        total_rate: None,
        file_rates: Vec::new(),
        sha: None,
    };

    let text = report.format(&TextFormatter);
    assert!(text.contains("Diff coverage: 100.0%"));

    let md = report.format(&MarkdownFormatter);
    assert!(md.contains("Diff Coverage: 100.0%"));
}

#[test]
fn text_none_instrumentable() {
    let report = DiffCoverageReport {
        diff_files: 2,
        diff_lines: 7,
        files: vec![],
        total_covered: 0,
        total_instrumentable: 0,
        total_rate: None,
        file_rates: Vec::new(),
        sha: None,
    };
    let text = report.format(&TextFormatter);
    assert!(text.contains("7 lines added across 2 files"));
    assert!(text.contains("none are instrumentable"));
}
