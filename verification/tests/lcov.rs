use covrs::parsers::lcov;

#[test]
fn test_parse_lcov() {
    let input = b"TN:test\n\
SF:/src/lib.rs\n\
FN:1,main\n\
FN:5,helper\n\
FNDA:5,main\n\
FNDA:0,helper\n\
DA:1,5\n\
DA:2,3\n\
DA:3,0\n\
DA:4,2\n\
DA:5,1\n\
BRDA:2,0,0,5\n\
BRDA:2,0,1,-\n\
end_of_record\n\
SF:/src/util.rs\n\
DA:1,1\n\
DA:2,0\n\
end_of_record\n";
    let data = lcov::parse(input).unwrap();

    assert_eq!(data.files.len(), 2);

    let lib = &data.files[0];
    assert_eq!(lib.path, "/src/lib.rs");
    assert_eq!(lib.lines.len(), 5);
    assert_eq!(lib.lines[0].line_number, 1);
    assert_eq!(lib.lines[0].hit_count, 5);
    assert_eq!(lib.lines[2].line_number, 3);
    assert_eq!(lib.lines[2].hit_count, 0);

    assert_eq!(lib.branches.len(), 2);
    assert_eq!(lib.branches[0].line_number, 2);
    assert_eq!(lib.branches[0].branch_index, 0);
    assert_eq!(lib.branches[0].hit_count, 5);
    assert_eq!(lib.branches[1].branch_index, 1);
    assert_eq!(lib.branches[1].hit_count, 0);

    assert_eq!(lib.functions.len(), 2);
    assert_eq!(lib.functions[0].name, "main");
    assert_eq!(lib.functions[0].hit_count, 5);
    assert_eq!(lib.functions[0].start_line, Some(1));
    assert_eq!(lib.functions[1].name, "helper");
    assert_eq!(lib.functions[1].hit_count, 0);

    let util = &data.files[1];
    assert_eq!(util.path, "/src/util.rs");
    assert_eq!(util.lines.len(), 2);
    assert_eq!(util.branches.len(), 0);
    assert_eq!(util.functions.len(), 0);
}

#[test]
fn test_parse_lcov_no_end_of_record() {
    let input = b"SF:/a.rs\nDA:1,1\nDA:2,0\n";
    let data = lcov::parse(input).unwrap();
    assert_eq!(data.files.len(), 1);
    assert_eq!(data.files[0].lines.len(), 2);
}

#[test]
fn test_parse_lcov_negative_counts() {
    // DA lines with negative counts (e.g., -1) are skipped as
    // non-instrumentable.
    let input = b"SF:/src/lib.rs\nDA:1,5\nDA:2,-1\nDA:3,0\nDA:4,3\nend_of_record\n";
    let data = lcov::parse(input).unwrap();

    assert_eq!(data.files.len(), 1);
    let file = &data.files[0];
    // Line 2 has count=-1, skipped. Lines 1, 3, 4 remain.
    assert_eq!(file.lines.len(), 3);
    assert_eq!(file.lines[0].line_number, 1);
    assert_eq!(file.lines[0].hit_count, 5);
    assert_eq!(file.lines[1].line_number, 3);
    assert_eq!(file.lines[1].hit_count, 0);
    assert_eq!(file.lines[2].line_number, 4);
    assert_eq!(file.lines[2].hit_count, 3);
}

#[test]
fn test_parse_lcov_empty() {
    // An LCOV file with only a test name and no records yields no files.
    let input = b"TN:test\n";
    let data = lcov::parse(input).unwrap();
    assert_eq!(data.files.len(), 0);
}

#[test]
fn lcov_ingest_and_query() {
    let mut store = covrs::store::Store::new();
    let lcov = b"TN:t\nSF:/a.rs\nDA:1,5\nDA:2,0\nDA:3,1\nend_of_record\n";
    let data = lcov::parse(lcov).unwrap();
    store
        .insert_coverage("lcov-run", "lcov", None, &data, false)
        .unwrap();
    let summary = store.get_summary().unwrap();
    assert_eq!(summary.total_files, 1);
    assert_eq!(summary.total_lines, 3);
    assert_eq!(summary.covered_lines, 2);
    let lines = store.get_lines("/a.rs").unwrap();
    assert_eq!(lines.len(), 3);
    assert_eq!(lines[0].line_number, 1);
    assert_eq!(lines[0].hit_count, 5);
}

#[test]
fn test_parse_lcov_invalid_utf8_path() {
    // A file path that is not UTF-8 is refused.
    let input = b"SF:/src/\xff\xfe.rs\nDA:1,1\nend_of_record\n";
    let result = covrs::parsers::lcov::parse(input);
    assert!(result.is_err());
}

#[test]
fn lcov_lines_sorted_at_flush() {
    let input = b"SF:/a.rs\nDA:5,1\nDA:2,0\nDA:9,3\nDA:2,4\nend_of_record\n";
    let data = lcov::parse(input).unwrap();
    let lines = &data.files[0].lines;
    assert_eq!(lines.len(), 4);
    assert_eq!(lines[0].line_number, 2);
    assert_eq!(lines[1].line_number, 2);
    assert_eq!(lines[2].line_number, 5);
    assert_eq!(lines[3].line_number, 9);
    assert_eq!(lines[0].hit_count, 0);
    assert_eq!(lines[1].hit_count, 4);
}

#[test]
fn lcov_line_zero_rows_dropped() {
    let input = b"SF:/a.rs\nDA:0,5\nDA:2,1\nBRDA:0,0,0,1\nBRDA:2,0,0,1\nend_of_record\n";
    let data = lcov::parse(input).unwrap();
    let f = &data.files[0];
    assert_eq!(f.lines.len(), 1);
    assert_eq!(f.lines[0].line_number, 2);
    assert_eq!(f.branches.len(), 1);
    assert_eq!(f.branches[0].line_number, 2);
}
