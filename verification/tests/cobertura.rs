use covrs::parsers::cobertura;

#[test]
fn test_parse_cobertura() {
    let input = br#"<?xml version="1.0"?>
<coverage version="1.0">
  <sources><source>/home/user/project</source></sources>
  <packages><package name="p"><classes>
    <class name="main" filename="src/main.py">
      <methods><method name="do_stuff"><lines><line number="5" hits="3"/></lines></method></methods>
      <lines>
        <line number="1" hits="1"/>
        <line number="2" hits="1"/>
        <line number="3" hits="0"/>
        <line number="4" hits="1"/>
        <line number="5" hits="3"/>
        <line number="6" hits="1"/>
        <line number="7" hits="1"/>
        <line number="8" hits="1" branch="true" condition-coverage="50% (1/2)"/>
      </lines>
    </class>
    <class name="util" filename="src/util.py">
      <lines><line number="1" hits="1"/><line number="2" hits="0"/></lines>
    </class>
  </classes></package></packages>
</coverage>"#;
    let data = cobertura::parse(input).unwrap();

    assert_eq!(data.files.len(), 2);

    let main = &data.files[0];
    assert_eq!(main.path, "/home/user/project/src/main.py");
    assert_eq!(main.lines.len(), 8);
    assert_eq!(main.lines[0].line_number, 1);
    assert_eq!(main.lines[0].hit_count, 1);
    assert_eq!(main.lines[2].line_number, 3);
    assert_eq!(main.lines[2].hit_count, 0);

    // Branch on line 8: 50% (1/2) -> 2 branch arms, one hit one miss
    assert_eq!(main.branches.len(), 2);
    assert_eq!(main.branches[0].line_number, 8);
    assert_eq!(main.branches[0].hit_count, 1);
    assert_eq!(main.branches[1].hit_count, 0);

    // One method extracted
    assert_eq!(main.functions.len(), 1);
    assert_eq!(main.functions[0].name, "do_stuff");
    assert_eq!(main.functions[0].start_line, Some(5));
    assert_eq!(main.functions[0].hit_count, 1);

    let util = &data.files[1];
    assert_eq!(util.path, "/home/user/project/src/util.py");
    assert_eq!(util.lines.len(), 2);
    assert_eq!(util.branches.len(), 0);
}

#[test]
fn test_parse_cobertura_branch_dedup() {
    // Branch line appears in both <method><lines> and <class><lines>.
    // The branch arms must not be double-counted.
    let input = br#"<?xml version="1.0"?>
<coverage><packages><package name="p"><classes>
<class name="c" filename="f.py">
  <methods><method name="m"><lines>
    <line number="1" hits="1"/>
    <line number="3" hits="1" branch="true" condition-coverage="50% (1/2)"/>
  </lines></method></methods>
  <lines>
    <line number="1" hits="1"/><line number="2" hits="1"/>
    <line number="3" hits="1" branch="true" condition-coverage="50% (1/2)"/>
    <line number="4" hits="0"/>
  </lines>
</class></classes></package></packages></coverage>"#;
    let data = cobertura::parse(input).unwrap();

    assert_eq!(data.files.len(), 1);
    let file = &data.files[0];

    // Lines deduplicated: 4 unique lines, not 6
    assert_eq!(file.lines.len(), 4);

    // Branch on line 3: 50% (1/2) -> exactly 2 arms, not 4
    assert_eq!(file.branches.len(), 2);
    assert_eq!(file.branches[0].line_number, 3);
    assert_eq!(file.branches[0].branch_index, 0);
    assert_eq!(file.branches[0].hit_count, 1);
    assert_eq!(file.branches[1].line_number, 3);
    assert_eq!(file.branches[1].branch_index, 1);
    assert_eq!(file.branches[1].hit_count, 0);
}

#[test]
fn test_parse_cobertura_multiple_sources() {
    // First <source> is empty, second is the real prefix.
    let input = br#"<?xml version="1.0"?>
<coverage><sources><source></source><source>/home/user/project</source></sources>
<packages><package name="p"><classes>
<class name="a" filename="src/app.py"><lines><line number="1" hits="1"/></lines></class>
</classes></package></packages></coverage>"#;
    let data = cobertura::parse(input).unwrap();

    assert_eq!(data.files.len(), 1);
    assert_eq!(data.files[0].path, "/home/user/project/src/app.py");
}

#[test]
fn test_parse_cobertura_no_sources() {
    let input = br#"<?xml version="1.0"?>
<coverage><packages><package name="p"><classes>
<class name="f" filename="src/f.rs"><lines><line number="1" hits="1"/></lines></class>
</classes></package></packages></coverage>"#;
    let data = cobertura::parse(input).unwrap();
    assert_eq!(data.files.len(), 1);
    assert_eq!(data.files[0].path, "src/f.rs");
}

#[test]
fn test_parse_cobertura_empty() {
    // A valid Cobertura file with no classes yields no files.
    let input = br#"<?xml version="1.0"?><coverage version="1.0"><packages></packages></coverage>"#;
    let data = cobertura::parse(input).unwrap();
    assert_eq!(data.files.len(), 0);
}

#[test]
fn test_parse_cobertura_malformed() {
    // Malformed XML produces an error with position information.
    let input = br#"<?xml version="1.0"?><coverage><x></y></coverage>"#;
    let result = cobertura::parse(input);
    assert!(result.is_err());
    let err_msg = result.unwrap_err().message();
    assert!(
        err_msg.contains("position"),
        "Error should contain position info: {err_msg}",
    );
}

#[test]
fn cobertura_ingest_and_query() {
    let mut store = covrs::store::Store::new();
    let input = br#"<coverage><packages><package name="p"><classes>
<class name="c" filename="a.py"><lines>
<line number="1" hits="2"/><line number="2" hits="0"/>
</lines></class></classes></package></packages></coverage>"#;
    let data = cobertura::parse(input).unwrap();
    store
        .insert_coverage("cob-run", "cobertura", None, &data, false)
        .unwrap();
    let summary = store.get_summary().unwrap();
    assert_eq!(summary.total_lines, 2);
    assert_eq!(summary.covered_lines, 1);
}

#[test]
fn cobertura_line_zero_rows_dropped() {
    let xml = b"<?xml version=\"1.0\"?>\n<coverage><packages><package><classes>\
<class filename=\"src/z.rs\"><lines>\
<line number=\"0\" hits=\"4\"/>\
<line number=\"3\" hits=\"1\"/>\
</lines></class></classes></package></packages></coverage>";
    let data = cobertura::parse(xml).unwrap();
    let f = &data.files[0];
    assert_eq!(f.lines.len(), 1);
    assert_eq!(f.lines[0].line_number, 3);
}
