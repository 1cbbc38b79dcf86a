use covrs::model::{CoverageData, FileCoverage, FunctionCoverage, LineCoverage};
use covrs::parsers::lcov;
use covrs::store::Store;

fn data_of(lcov_bytes: &[u8]) -> CoverageData {
    lcov::parse(lcov_bytes).unwrap()
}

#[test]
fn delete_report() {
    let mut store = Store::new();
    let data = data_of(b"SF:/src/lib.rs\nDA:1,1\nend_of_record\n");
    store
        .insert_coverage("to-delete", "lcov", None, &data, false)
        .unwrap();

    assert_eq!(store.list_reports().len(), 1);
    store.delete_report("to-delete").unwrap();
    assert_eq!(store.list_reports().len(), 0);
}

#[test]
fn delete_nonexistent_report_fails() {
    let mut store = Store::new();
    let result = store.delete_report("does-not-exist");
    assert!(result.is_err());
}

#[test]
fn duplicate_report_name_fails() {
    let mut store = Store::new();
    let data = data_of(b"SF:/src/lib.rs\nDA:1,1\nend_of_record\n");

    store
        .insert_coverage("dupe", "lcov", None, &data, false)
        .unwrap();
    let data2 = data_of(b"SF:/src/lib.rs\nDA:1,1\nend_of_record\n");
    let result = store.insert_coverage("dupe", "lcov", None, &data2, false);
    assert!(result.is_err());
}

#[test]
fn function_coverage_null_start_line_dedup() {
    // Two functions with the same name but different start lines (one
    // absent, one present) are stored as separate entries.
    let mut store = Store::new();

    let mut file = FileCoverage::new("/src/lib.rs".to_string());
    file.lines.push(LineCoverage { line_number: 1, hit_count: 1 });
    file.functions.push(FunctionCoverage {
        name: "init".to_string(),
        start_line: Some(10),
        end_line: None,
        hit_count: 3,
    });
    file.functions.push(FunctionCoverage {
        name: "init".to_string(),
        start_line: None,
        end_line: None,
        hit_count: 5,
    });
    let data = CoverageData { files: vec![file] };

    store
        .insert_coverage("test-fn", "lcov", None, &data, false)
        .unwrap();

    let summary = store.get_summary().unwrap();
    assert_eq!(summary.total_functions, 2);
    assert_eq!(summary.covered_functions, 2);
}

#[test]
fn get_summary_nonexistent_report_fails() {
    let store = Store::new();
    let result = store.get_summary();
    assert!(result.is_err());
}

#[test]
fn overwrite_replaces_report() {
    let mut store = Store::new();
    let a = data_of(b"SF:/a.rs\nDA:1,1\nDA:2,1\nend_of_record\n");
    store.insert_coverage("run", "lcov", None, &a, false).unwrap();
    let b = data_of(b"SF:/a.rs\nDA:1,0\nend_of_record\n");
    store.insert_coverage("run", "lcov", None, &b, true).unwrap();
    assert_eq!(store.list_reports().len(), 1);
    let summary = store.get_summary().unwrap();
    assert_eq!(summary.total_lines, 1);
    assert_eq!(summary.covered_lines, 0);
}

#[test]
fn overwrite_idempotent_results() {
    // Ingesting the same payload twice with overwrite answers queries
    // exactly as ingesting it once does.
    let mut once = Store::new();
    let d1 = data_of(b"SF:/a.rs\nDA:1,4\nDA:2,0\nend_of_record\n");
    once.insert_coverage("run", "lcov", None, &d1, true).unwrap();

    let mut twice = Store::new();
    let d2 = data_of(b"SF:/a.rs\nDA:1,4\nDA:2,0\nend_of_record\n");
    twice.insert_coverage("run", "lcov", None, &d2, true).unwrap();
    let d3 = data_of(b"SF:/a.rs\nDA:1,4\nDA:2,0\nend_of_record\n");
    twice.insert_coverage("run", "lcov", None, &d3, true).unwrap();

    let l1 = once.get_lines("/a.rs").unwrap();
    let l2 = twice.get_lines("/a.rs").unwrap();
    assert_eq!(l1, l2);
    let s1 = once.get_summary().unwrap();
    let s2 = twice.get_summary().unwrap();
    assert_eq!(s1, s2);
}

#[test]
fn delete_purges_orphaned_source_files() {
    let mut store = Store::new();
    let a = data_of(b"SF:/a.rs\nDA:1,1\nend_of_record\n");
    store.insert_coverage("ra", "lcov", None, &a, false).unwrap();
    let b = data_of(b"SF:/b.rs\nDA:1,1\nend_of_record\n");
    store.insert_coverage("rb", "lcov", None, &b, false).unwrap();

    store.delete_report("ra").unwrap();
    // /a.rs was only referenced by the deleted report.
    assert!(store.get_lines("/a.rs").is_err());
    assert!(store.get_lines("/b.rs").is_ok());
}

#[test]
fn get_file_summaries_reports_rates() {
    let mut store = Store::new();
    let a = data_of(b"SF:/a.rs\nDA:1,1\nDA:2,0\nend_of_record\nSF:/b.rs\nDA:1,3\nend_of_record\n");
    store.insert_coverage("r", "lcov", None, &a, false).unwrap();
    let rows = store.get_file_summaries();
    assert_eq!(rows.len(), 2);
    assert_eq!(rows[0].path, "/a.rs");
    assert_eq!(rows[0].total_lines, 2);
    assert_eq!(rows[0].covered_lines, 1);
    assert_eq!(rows[1].path, "/b.rs");
    assert_eq!(rows[1].total_lines, 1);

    assert_eq!(store.get_file_line_rate("/a.rs"), Some((1, 2)));
    assert_eq!(store.get_file_line_rate("/missing.rs"), None);
}

#[test]
fn get_file_summaries_sorted_by_path() {
    let mut store = Store::new();
    let a = data_of(b"SF:/z.rs\nDA:1,1\nend_of_record\nSF:/a.rs\nDA:1,0\nend_of_record\nSF:/m.rs\nDA:1,2\nend_of_record\n");
    store.insert_coverage("r", "lcov", None, &a, false).unwrap();
    let rows = store.get_file_summaries();
    assert_eq!(rows.len(), 3);
    assert_eq!(rows[0].path, "/a.rs");
    assert_eq!(rows[1].path, "/m.rs");
    assert_eq!(rows[2].path, "/z.rs");
    assert_eq!(rows[0].covered_lines, 0);
    assert_eq!(rows[2].covered_lines, 1);
}
