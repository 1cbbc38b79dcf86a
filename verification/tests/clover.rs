use covrs::parsers::clover;
use covrs::parsers::CoverageParser;

#[test]
fn test_parse_clover() {
    let input = br#"<?xml version="1.0"?>
<coverage generated="1" clover="4.4.1">
  <project name="test">
    <package name="pkg">
      <file name="main.py" path="/home/user/project/src/main.py">
        <line num="1" count="1" type="stmt"/>
        <line num="2" count="1" type="stmt"/>
        <line num="3" count="0" type="stmt"/>
        <line num="4" count="1" type="stmt"/>
        <line num="5" count="3" type="method" signature="do_stuff()"/>
        <line num="6" count="1" type="stmt"/>
        <line num="7" count="1" type="stmt"/>
        <line num="8" count="2" type="cond" truecount="1" falsecount="1"/>
      </file>
      <file name="util.py" path="/home/user/project/src/util.py">
        <line num="1" count="1" type="stmt"/>
        <line num="2" count="0" type="stmt"/>
      </file>
    </package>
  </project>
</coverage>"#;
    let data = clover::parse(input).unwrap();

    assert_eq!(data.files.len(), 2);

    let main = &data.files[0];
    assert_eq!(main.path, "/home/user/project/src/main.py");
    assert_eq!(main.lines.len(), 8);
    assert_eq!(main.lines[0].line_number, 1);
    assert_eq!(main.lines[0].hit_count, 1);
    assert_eq!(main.lines[2].line_number, 3);
    assert_eq!(main.lines[2].hit_count, 0);

    // Branch on line 8: truecount=1 falsecount=1 -> 2 arms, both hit
    assert_eq!(main.branches.len(), 2);
    assert_eq!(main.branches[0].line_number, 8);
    assert_eq!(main.branches[0].hit_count, 1);
    assert_eq!(main.branches[1].line_number, 8);
    assert_eq!(main.branches[1].hit_count, 1);

    // One method extracted (line 5, type="method")
    assert_eq!(main.functions.len(), 1);
    assert_eq!(main.functions[0].name, "do_stuff()");
    assert_eq!(main.functions[0].start_line, Some(5));
    assert_eq!(main.functions[0].hit_count, 3);

    let util = &data.files[1];
    assert_eq!(util.path, "/home/user/project/src/util.py");
    assert_eq!(util.lines.len(), 2);
    assert_eq!(util.branches.len(), 0);
}

#[test]
fn test_parse_clover_empty() {
    // A valid Clover file with no files yields no records.
    let input = br#"<?xml version="1.0"?><coverage generated="1" clover="4.4.1"><project name="p"></project></coverage>"#;
    let data = clover::parse(input).unwrap();
    assert_eq!(data.files.len(), 0);
}

#[test]
fn test_parse_clover_malformed() {
    let input = br#"<?xml version="1.0"?><coverage clover="4.4.1"><a></b></coverage>"#;
    let result = clover::parse(input);
    assert!(result.is_err());
    let err_msg = result.unwrap_err().message();
    assert!(
        err_msg.contains("position"),
        "Error should contain position info: {err_msg}",
    );
}

#[test]
fn test_can_parse_clover() {
    let parser = covrs::parsers::CloverParser;

    // Clover XML with clover= attribute
    let content = br#"<?xml version="1.0"?><coverage generated="123" clover="4.4.1"><project>"#;
    assert!(parser.can_parse("clover.xml", content));

    // Cobertura should NOT match (no clover= attribute)
    let content = br#"<?xml version="1.0"?><coverage version="1.0">"#;
    assert!(!parser.can_parse("coverage.xml", content));

    // JaCoCo should NOT match
    let content = br#"<?xml version="1.0"?><report name="test"><package>"#;
    assert!(!parser.can_parse("report.xml", content));
}

#[test]
fn test_parse_clover_no_path_attr() {
    // When <file> has no `path` attribute, fall back to `name`.
    let input = br#"<?xml version="1.0"?>
<coverage generated="123" clover="4.4.1">
  <project name="test">
    <package name="pkg">
      <file name="app.py">
        <line num="1" count="1" type="stmt"/>
      </file>
    </package>
  </project>
</coverage>"#;
    let data = clover::parse(input).unwrap();
    assert_eq!(data.files.len(), 1);
    assert_eq!(data.files[0].path, "app.py");
}

#[test]
fn test_parse_clover_branch_partially_covered() {
    // A cond line with truecount=1, falsecount=0: one condition, true arm
    // hit, false arm missed.
    let input = br#"<?xml version="1.0"?>
<coverage generated="123" clover="4.4.1">
  <project name="test">
    <package name="pkg">
      <file name="branch.py" path="/src/branch.py">
        <line num="5" count="2" type="cond" truecount="1" falsecount="0"/>
      </file>
    </package>
  </project>
</coverage>"#;
    let data = clover::parse(input).unwrap();
    assert_eq!(data.files.len(), 1);
    let file = &data.files[0];

    assert_eq!(file.lines.len(), 1);
    assert_eq!(file.lines[0].hit_count, 2);

    // 1 condition x 2 arms
    assert_eq!(file.branches.len(), 2);
    assert_eq!(file.branches[0].hit_count, 1);
    assert_eq!(file.branches[1].hit_count, 0);
}

#[test]
fn test_clover_cond_arm_indices_dense() {
    // Two conditions on one line: four arms under indices 0..4, arm 2i
    // hit iff i < truecount, arm 2i+1 hit iff i < falsecount.
    let input = br#"<?xml version="1.0"?>
<coverage generated="1" clover="4.4.1">
  <project name="p"><package name="k">
    <file name="c.py" path="/src/c.py">
      <line num="9" count="4" type="cond" truecount="2" falsecount="1"/>
    </file>
  </package></project>
</coverage>"#;
    let data = covrs::parsers::clover::parse(input).unwrap();
    let file = &data.files[0];
    assert_eq!(file.branches.len(), 4);
    let idx: Vec<u32> = file.branches.iter().map(|b| b.branch_index).collect();
    assert_eq!(idx, vec![0, 1, 2, 3]);
    let hits: Vec<u64> = file.branches.iter().map(|b| b.hit_count).collect();
    assert_eq!(hits, vec![1, 1, 1, 0]);
}
