use covrs::parsers::istanbul;
use covrs::parsers::CoverageParser;

#[test]
fn test_parse_istanbul() {
    let input = br#"{
  "/src/lib.js": {
    "statementMap": {
      "0": { "start": { "line": 1, "column": 0 }, "end": { "line": 1, "column": 10 } },
      "1": { "start": { "line": 2, "column": 0 }, "end": { "line": 2, "column": 10 } },
      "2": { "start": { "line": 3, "column": 0 }, "end": { "line": 3, "column": 10 } },
      "3": { "start": { "line": 4, "column": 0 }, "end": { "line": 4, "column": 10 } },
      "4": { "start": { "line": 5, "column": 0 }, "end": { "line": 5, "column": 10 } }
    },
    "s": { "0": 5, "1": 5, "2": 0, "3": 5, "4": 1 },
    "branchMap": { "0": { "loc": { "start": { "line": 2 } }, "locations": [] } },
    "b": { "0": [5, 0] },
    "fnMap": {
      "0": { "name": "main", "decl": { "start": { "line": 1 } }, "loc": { "start": { "line": 1 }, "end": { "line": 5 } } },
      "1": { "name": "helper", "decl": { "start": { "line": 4 } }, "loc": { "start": { "line": 4 }, "end": { "line": 5 } } }
    },
    "f": { "0": 5, "1": 0 }
  },
  "/src/util.js": {
    "statementMap": {
      "0": { "start": { "line": 1, "column": 0 }, "end": { "line": 1, "column": 5 } },
      "1": { "start": { "line": 2, "column": 0 }, "end": { "line": 2, "column": 5 } }
    },
    "s": { "0": 2, "1": 2 },
    "branchMap": {}, "b": {}, "fnMap": {}, "f": {}
  }
}"#;
    let data = istanbul::parse(input).unwrap();

    assert_eq!(data.files.len(), 2);

    let lib = data.files.iter().find(|f| f.path.ends_with("lib.js")).unwrap();
    assert_eq!(lib.lines.len(), 5);
    // Lines sorted
    assert_eq!(lib.lines[0].line_number, 1);
    assert_eq!(lib.lines[0].hit_count, 5);
    assert_eq!(lib.lines[2].line_number, 3);
    assert_eq!(lib.lines[2].hit_count, 0);

    assert_eq!(lib.branches.len(), 2);
    assert_eq!(lib.branches[0].hit_count + lib.branches[1].hit_count, 5);

    assert_eq!(lib.functions.len(), 2);
    let main_fn = lib.functions.iter().find(|f| f.name == "main").unwrap();
    assert_eq!(main_fn.hit_count, 5);
    assert_eq!(main_fn.start_line, Some(1));

    let util = data.files.iter().find(|f| f.path.ends_with("util.js")).unwrap();
    assert_eq!(util.lines.len(), 2);
    assert_eq!(util.branches.len(), 0);
    assert_eq!(util.functions.len(), 0);
}

#[test]
fn test_parse_istanbul_empty_object() {
    let input = b"{}";
    let data = istanbul::parse(input).unwrap();
    assert_eq!(data.files.len(), 0);
}

#[test]
fn test_parse_istanbul_empty_file() {
    let input = b"{ }";
    let data = istanbul::parse(input).unwrap();
    assert_eq!(data.files.len(), 0);
}

#[test]
fn test_parse_istanbul_multiple_statements_same_line() {
    // Two statements on the same line: the larger hit count wins.
    let input = br#"{
        "/src/app.js": {
            "statementMap": {
                "0": { "start": { "line": 1, "column": 0 }, "end": { "line": 1, "column": 10 } },
                "1": { "start": { "line": 1, "column": 12 }, "end": { "line": 1, "column": 20 } }
            },
            "s": { "0": 3, "1": 7 },
            "branchMap": {},
            "b": {},
            "fnMap": {},
            "f": {}
        }
    }"#;
    let data = istanbul::parse(input).unwrap();
    assert_eq!(data.files.len(), 1);
    assert_eq!(data.files[0].lines.len(), 1);
    assert_eq!(data.files[0].lines[0].hit_count, 7);
}

#[test]
fn test_looks_like_istanbul() {
    assert!(istanbul::looks_like_istanbul(
        r#"{ "/src/lib.js": { "statementMap": {}, "fnMap": {} } }"#
    ));
    assert!(!istanbul::looks_like_istanbul(r#"<?xml version="1.0"?>"#));
    assert!(!istanbul::looks_like_istanbul(r#"SF:/src/lib.rs"#));
    assert!(!istanbul::looks_like_istanbul(r#"{ "unrelated": true }"#));
    // "s" alone is too generic; "fnMap" is required too
    assert!(!istanbul::looks_like_istanbul(
        r#"{ "statementMap": "x", "s": true }"#
    ));
}

#[test]
fn test_can_parse_by_filename() {
    let parser = covrs::parsers::IstanbulParser;
    assert!(parser.can_parse("coverage-final.json", b""));
    assert!(parser.can_parse("dir/coverage-final.json", b""));
    assert!(!parser.can_parse("coverage.json", b""));
    assert!(!parser.can_parse("data.json", b""));
}

#[test]
fn istanbul_ingest_and_query() {
    let mut store = covrs::store::Store::new();
    let input = br#"{ "/a.js": {
        "statementMap": { "0": { "start": { "line": 1 } }, "1": { "start": { "line": 2 } } },
        "s": { "0": 4, "1": 0 },
        "branchMap": {}, "b": {}, "fnMap": {}, "f": {}
    } }"#;
    let data = istanbul::parse(input).unwrap();
    store
        .insert_coverage("ist-run", "istanbul", None, &data, false)
        .unwrap();
    let summary = store.get_summary().unwrap();
    assert_eq!(summary.total_lines, 2);
    assert_eq!(summary.covered_lines, 1);
}
