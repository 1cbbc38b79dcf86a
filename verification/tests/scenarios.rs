//! End-to-end scenarios: ingesting, union semantics across reports, diff
//! coverage, report rendering, and annotation grouping.

use covrs::diff::parse_diff;
use covrs::model::{CoverageData, FileCoverage, LineCoverage};
use covrs::parsers::lcov;
use covrs::report::{build_annotations, build_report, diff_report_from_text, MarkdownFormatter, Style};
use covrs::store::Store;

fn seed(store: &mut Store, name: &str, lcov_bytes: &[u8]) {
    let data = lcov::parse(lcov_bytes).unwrap();
    store.insert_coverage(name, "lcov", None, &data, false).unwrap();
}

#[test]
fn lcov_basic_summary() {
    // One file, three instrumentable lines, two of them covered.
    let mut store = Store::new();
    seed(&mut store, "t", b"TN:t\nSF:/a.rs\nDA:1,5\nDA:2,0\nDA:3,1\nend_of_record\n");
    let data_files = store.list_reports();
    assert_eq!(data_files.len(), 1);
    let summary = store.get_summary().unwrap();
    assert_eq!(summary.total_lines, 3);
    assert_eq!(summary.covered_lines, 2);
}

#[test]
fn union_takes_max_across_reports() {
    let mut store = Store::new();
    seed(&mut store, "a", b"SF:/f.rs\nDA:1,1\nDA:2,0\nDA:3,1\nend_of_record\n");
    seed(&mut store, "b", b"SF:/f.rs\nDA:1,0\nDA:2,1\nDA:3,0\nend_of_record\n");

    let lines = store.get_lines("/f.rs").unwrap();
    assert_eq!(lines.len(), 3);
    assert_eq!(lines[0].hit_count, 1);
    assert_eq!(lines[1].hit_count, 1);
    assert_eq!(lines[2].hit_count, 1);
}

#[test]
fn ingest_then_lines_visible() {
    let mut store = Store::new();
    let mut file = FileCoverage::new("src/x.rs".to_string());
    file.lines.push(LineCoverage { line_number: 7, hit_count: 9 });
    file.lines.push(LineCoverage { line_number: 8, hit_count: 0 });
    let data = CoverageData { files: vec![file] };
    store.insert_coverage("r", "lcov", None, &data, false).unwrap();

    let lines = store.get_lines("src/x.rs").unwrap();
    assert_eq!(lines.len(), 2);
    assert_eq!(lines[0].line_number, 7);
    assert_eq!(lines[0].hit_count, 9);
    assert_eq!(lines[1].line_number, 8);
    assert_eq!(lines[1].hit_count, 0);
}

#[test]
fn diff_coverage_end_to_end() {
    let mut store = Store::new();
    seed(
        &mut store,
        "test",
        b"SF:src/main.rs\nDA:1,1\nDA:2,1\nDA:3,1\nDA:4,0\nend_of_record\n",
    );

    // Diff adds lines 1-4 of src/main.rs: total 4, covered 3.
    let diff_text = "\
diff --git a/src/main.rs b/src/main.rs
--- a/src/main.rs
+++ b/src/main.rs
@@ -0,0 +1,4 @@
+fn main() {
+    let x = 1;
+    let y = 2;
+    let z = 3;
";
    let diff_lines = parse_diff(diff_text);
    let (files, covered, total) = store.diff_coverage(&diff_lines);
    assert_eq!(total, 4);
    assert_eq!(covered, 3);
    assert_eq!(files.len(), 1);
    assert_eq!(files[0].covered_lines, vec![1, 2, 3]);
    assert_eq!(files[0].missed_lines, vec![4]);

    // The markdown rendering shows the diff rate.
    let report = diff_report_from_text(&store, diff_text, None, None);
    let md = report.format(&MarkdownFormatter);
    assert!(md.contains("75.0%"));
}

#[test]
fn diff_coverage_ignores_non_instrumentable_lines() {
    let mut store = Store::new();
    seed(&mut store, "t", b"SF:src/main.rs\nDA:1,1\nDA:2,0\nDA:3,1\nDA:4,0\nDA:5,1\nend_of_record\n");

    // Diff adds lines 2, 3, 4, and 10 (10 is not in coverage data at all)
    let parsed = parse_diff(
        "+++ b/src/main.rs\n@@ -1,0 +2,3 @@\n+a\n+b\n+c\n@@ -9,0 +10,1 @@\n+d\n",
    );
    let (_, covered, total) = store.diff_coverage(&parsed);
    // Lines 2 (hit 0), 3 (hit 1), 4 (hit 0) are instrumentable; 10 is not.
    assert_eq!(total, 3);
    assert_eq!(covered, 1);
}

#[test]
fn diff_coverage_multiple_reports() {
    let mut store = Store::new();
    seed(&mut store, "report-a", b"SF:src/main.rs\nDA:1,1\nDA:2,0\nDA:3,1\nend_of_record\n");
    seed(&mut store, "report-b", b"SF:src/main.rs\nDA:1,0\nDA:2,1\nDA:3,0\nend_of_record\n");

    let parsed = parse_diff("+++ b/src/main.rs\n@@ -0,0 +1,3 @@\n+a\n+b\n+c\n");
    let (_, covered, total) = store.diff_coverage(&parsed);
    // MAX across reports: every line is covered somewhere.
    assert_eq!(total, 3);
    assert_eq!(covered, 3);
}

#[test]
fn diff_coverage_multiple_files() {
    let mut store = Store::new();
    seed(
        &mut store,
        "report-a",
        b"SF:src/file1.rs\nDA:1,1\nDA:2,0\nend_of_record\nSF:src/file2.rs\nDA:1,0\nDA:2,0\nend_of_record\n",
    );
    seed(
        &mut store,
        "report-b",
        b"SF:src/file1.rs\nDA:1,0\nDA:2,0\nend_of_record\nSF:src/file2.rs\nDA:1,1\nDA:2,1\nend_of_record\n",
    );

    let parsed = parse_diff(
        "+++ b/src/file1.rs\n@@ -0,0 +1,2 @@\n+a\n+b\n+++ b/src/file2.rs\n@@ -0,0 +1,2 @@\n+a\n+b\n",
    );
    let (_, covered, total) = store.diff_coverage(&parsed);
    assert_eq!(total, 4);
    assert_eq!(covered, 3);
}

#[test]
fn diff_coverage_unknown_file() {
    let mut store = Store::new();
    seed(&mut store, "t", b"SF:src/main.rs\nDA:1,1\nend_of_record\n");

    let parsed = parse_diff("+++ b/src/other.rs\n@@ -0,0 +1,3 @@\n+a\n+b\n+c\n");
    let (files, covered, total) = store.diff_coverage(&parsed);
    assert_eq!(total, 0);
    assert_eq!(covered, 0);
    assert!(files.is_empty());
}

#[test]
fn diff_coverage_empty_diff() {
    let mut store = Store::new();
    seed(&mut store, "t", b"SF:src/main.rs\nDA:1,1\nend_of_record\n");

    let parsed = parse_diff("");
    let (files, covered, total) = store.diff_coverage(&parsed);
    assert_eq!(total, 0);
    assert_eq!(covered, 0);
    assert!(files.is_empty());
}

#[test]
fn range_coalescing_scenarios() {
    // missed = [1,2,4,5], instrumentable = [1,2,4,5]: one range "1-5".
    assert_eq!(
        covrs::report::format_line_ranges(&[1, 2, 4, 5], &[1, 2, 4, 5]),
        "1-5"
    );
    // With line 3 instrumentable (covered): "1-2, 4-5".
    assert_eq!(
        covrs::report::format_line_ranges(&[1, 2, 4, 5], &[1, 2, 3, 4, 5]),
        "1-2, 4-5"
    );
}

#[test]
fn annotation_grouping() {
    // Diff missed lines [3,4] in src/main.rs: one annotation
    // (src/main.rs, 3, 4, "Lines 3-4 not covered by tests").
    let mut store = Store::new();
    seed(
        &mut store,
        "t",
        b"SF:src/main.rs\nDA:1,1\nDA:2,1\nDA:3,0\nDA:4,0\nend_of_record\n",
    );
    let parsed = parse_diff("+++ b/src/main.rs\n@@ -0,0 +1,4 @@\n+a\n+b\n+c\n+d\n");
    let report = build_report(&store, &parsed, None);
    let annotations = build_annotations(&report);

    assert_eq!(annotations.len(), 1);
    assert_eq!(annotations[0].path, "src/main.rs");
    assert_eq!(annotations[0].start_line, 3);
    assert_eq!(annotations[0].end_line, 4);
    assert_eq!(annotations[0].message, "Lines 3-4 not covered by tests");
}

#[test]
fn annotation_single_line_message() {
    assert_eq!(
        covrs::report::annotation_message(7, 7),
        "Line 7 not covered by tests"
    );
    assert_eq!(
        covrs::report::annotation_message(3, 4),
        "Lines 3-4 not covered by tests"
    );
}

#[test]
fn text_report_empty_diff() {
    let store = Store::new();
    let report = diff_report_from_text(&store, "", None, None);
    let out = Style::Text.render(&report);
    assert!(out.contains("No added lines found in diff."));
}

#[test]
fn markdown_report_with_sha_links() {
    let mut store = Store::new();
    seed(&mut store, "t", b"SF:src/foo.rs\nDA:1,1\nDA:2,1\nDA:3,1\nDA:5,0\nDA:6,0\nend_of_record\n");
    let diff_text = "+++ b/src/foo.rs\n@@ -0,0 +1,6 @@\n+a\n+b\n+c\n+d\n+e\n+f\n";
    let report = diff_report_from_text(&store, diff_text, None, Some("abc1234def"));
    let md = Style::Markdown.render(&report);
    assert!(md.contains("[5-6](../blob/abc1234def/src/foo.rs#L5-L6)"));
    assert!(md.contains("abc1234"));
    assert!(md.contains("Missed lines"));
}

#[test]
fn sql_builders() {
    assert_eq!(covrs::sql::multi_row_values(2, 3), "(?,?,?),(?,?,?)");
    assert_eq!(covrs::sql::multi_row_values(1, 1), "(?)");
    assert_eq!(
        covrs::sql::union_source(false, covrs::sql::UnionKind::Line),
        "line_coverage"
    );
    assert!(covrs::sql::union_source(true, covrs::sql::UnionKind::Line).contains("MAX(hit_count)"));
}

#[test]
fn ingest_bytes_pipeline() {
    let mut store = Store::new();
    let (id, format, name) = covrs::ingest::ingest_bytes(
        &mut store,
        "/tmp/cov.info",
        b"SF:/root/proj/src/a.rs\nDA:1,1\nend_of_record\n",
        None,
        None,
        false,
        Some("/root/proj"),
    )
    .unwrap();
    assert_eq!(id, 1);
    assert_eq!(format, covrs::parsers::Format::Lcov);
    assert_eq!(name, "cov.info");
    // The project root was stripped from the absolute path.
    assert!(store.get_lines("src/a.rs").is_ok());
}

#[test]
fn ingest_bytes_unknown_format() {
    let mut store = Store::new();
    let r = covrs::ingest::ingest_bytes(
        &mut store,
        "data.bin",
        b"garbage",
        None,
        None,
        false,
        None,
    );
    assert!(r.is_err());
}

#[test]
fn diff_coverage_single_report() {
    let mut store = Store::new();
    seed(&mut store, "test", b"SF:src/main.rs\nDA:1,1\nDA:2,0\nDA:3,1\nDA:4,0\nDA:5,1\nend_of_record\n");

    let parsed = parse_diff(
        "+++ b/src/main.rs\n@@ -1,0 +2,3 @@\n+a\n+b\n+c\n@@ -9,0 +10,1 @@\n+d\n",
    );
    let (_, covered, total) = store.diff_coverage(&parsed);
    // Lines 2 (hit 0), 3 (hit 1), 4 (hit 0) instrumentable; 10 not in the data.
    assert_eq!(total, 3);
    assert_eq!(covered, 1);
}
