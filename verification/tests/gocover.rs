use covrs::parsers::gocover;
use covrs::parsers::CoverageParser;

#[test]
fn test_parse_gocover() {
    let input = b"mode: count\n\
github.com/user/project/main.go:10.1,12.10 3 5\n\
github.com/user/project/main.go:14.1,16.5 2 0\n\
github.com/user/project/util.go:1.1,3.4 2 3\n";
    let data = gocover::parse(input).unwrap();

    assert_eq!(data.files.len(), 2);

    let main = &data.files[0];
    assert_eq!(main.path, "github.com/user/project/main.go");
    // Lines 10-12 (count 5) + lines 14-16 (count 0) = 6 lines
    assert_eq!(main.lines.len(), 6);
    assert_eq!(main.lines[0].line_number, 10);
    assert_eq!(main.lines[0].hit_count, 5);
    assert_eq!(main.lines[2].line_number, 12);
    assert_eq!(main.lines[2].hit_count, 5);
    assert_eq!(main.lines[3].line_number, 14);
    assert_eq!(main.lines[3].hit_count, 0);

    let util = &data.files[1];
    assert_eq!(util.path, "github.com/user/project/util.go");
    assert_eq!(util.lines.len(), 3);
    assert_eq!(util.lines[0].hit_count, 3);
}

#[test]
fn test_parse_gocover_overlapping_blocks() {
    // When two blocks overlap on the same line, the larger count wins.
    let input = b"mode: count\n\
example.com/pkg/f.go:5.1,10.10 3 2\n\
example.com/pkg/f.go:8.1,12.10 2 7\n";
    let data = gocover::parse(input).unwrap();

    assert_eq!(data.files.len(), 1);
    let file = &data.files[0];

    // Lines 5-7 from first block only: count 2
    // Lines 8-10 overlap: max(2, 7) = 7
    // Lines 11-12 from second block only: count 7
    assert_eq!(file.lines.len(), 8); // lines 5..=12
    let line5 = file.lines.iter().find(|l| l.line_number == 5).unwrap();
    assert_eq!(line5.hit_count, 2);
    let line8 = file.lines.iter().find(|l| l.line_number == 8).unwrap();
    assert_eq!(line8.hit_count, 7);
    let line10 = file.lines.iter().find(|l| l.line_number == 10).unwrap();
    assert_eq!(line10.hit_count, 7);
    let line12 = file.lines.iter().find(|l| l.line_number == 12).unwrap();
    assert_eq!(line12.hit_count, 7);
}

#[test]
fn test_parse_gocover_empty() {
    let input = b"mode: set\n";
    let data = gocover::parse(input).unwrap();
    assert_eq!(data.files.len(), 0);
}

#[test]
fn test_parse_gocover_no_mode_header() {
    // Some merge tools produce profiles without a mode line.
    let input = b"example.com/pkg/f.go:1.1,5.10 2 3\n";
    let data = gocover::parse(input).unwrap();
    assert_eq!(data.files.len(), 1);
    assert_eq!(data.files[0].lines.len(), 5);
    assert_eq!(data.files[0].lines[0].hit_count, 3);
}

#[test]
fn test_parse_gocover_set_mode() {
    // In "set" mode, count is 0 or 1.
    let input = b"mode: set\n\
example.com/pkg/f.go:1.1,3.10 2 1\n\
example.com/pkg/f.go:5.1,6.10 1 0\n";
    let data = gocover::parse(input).unwrap();
    assert_eq!(data.files.len(), 1);
    let file = &data.files[0];
    assert_eq!(file.lines.len(), 5);
    assert_eq!(file.lines[0].hit_count, 1); // line 1
    assert_eq!(file.lines[3].hit_count, 0); // line 5
}

#[test]
fn test_looks_like_go_block() {
    assert!(gocover::looks_like_go_block(
        "github.com/user/repo/file.go:10.1,20.5 3 1"
    ));
    assert!(!gocover::looks_like_go_block("mode: count"));
    assert!(!gocover::looks_like_go_block("SF:/src/lib.rs"));
    assert!(!gocover::looks_like_go_block(""));
}

#[test]
fn test_parse_block_line() {
    let (file, block) =
        gocover::parse_block_line(b"github.com/user/repo/file.go:10.1,20.5 3 1").unwrap();
    assert_eq!(file, b"github.com/user/repo/file.go");
    assert_eq!(block.start, 10);
    assert_eq!(block.end, 20);
    assert_eq!(block.count, 1);
}

#[test]
fn test_can_parse_by_extension() {
    let parser = covrs::parsers::GocoverParser;
    assert!(parser.can_parse("coverage.coverprofile", b""));
    assert!(parser.can_parse("coverage.gocov", b""));
    assert!(!parser.can_parse("coverage.txt", b""));
}

#[test]
fn test_can_parse_by_content() {
    let parser = covrs::parsers::GocoverParser;
    assert!(parser.can_parse("coverage.out", b"mode: count\n"));
    assert!(parser.can_parse("coverage.out", b"mode: set\n"));
    assert!(parser.can_parse("coverage.out", b"mode: atomic\n"));
    assert!(!parser.can_parse("coverage.out", b"random data\n"));
}

#[test]
fn gocover_ingest_and_query() {
    let mut store = covrs::store::Store::new();
    let input = b"mode: count\nexample.com/pkg/f.go:1.1,2.10 2 3\n";
    let data = gocover::parse(input).unwrap();
    store
        .insert_coverage("go-run", "gocover", None, &data, false)
        .unwrap();
    let summary = store.get_summary().unwrap();
    assert_eq!(summary.total_lines, 2);
    assert_eq!(summary.covered_lines, 2);
}

#[test]
fn gocover_line_zero_rows_dropped() {
    let input = b"mode: set\nexample.com/a/a.go:0.1,2.5 1 1\n";
    let data = gocover::parse(input).unwrap();
    let f = &data.files[0];
    assert_eq!(f.lines.len(), 2);
    assert_eq!(f.lines[0].line_number, 1);
    assert_eq!(f.lines[1].line_number, 2);
}
