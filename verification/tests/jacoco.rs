use covrs::parsers::jacoco;
use covrs::parsers::CoverageParser;

#[test]
fn test_parse_jacoco() {
    let input = br#"<?xml version="1.0"?>
<report name="test">
  <package name="com/example">
    <class name="com/example/Foo" sourcefilename="Foo.java">
      <method name="&lt;init&gt;" desc="()V" line="3">
        <counter type="METHOD" missed="0" covered="1"/>
      </method>
      <method name="doStuff" desc="()V" line="10">
        <counter type="METHOD" missed="0" covered="1"/>
      </method>
    </class>
    <sourcefile name="Foo.java">
      <line nr="3" mi="0" ci="3"/>
      <line nr="10" mi="0" ci="5"/>
      <line nr="11" mi="0" ci="5" mb="1" cb="1"/>
      <line nr="12" mi="2" ci="0"/>
      <line nr="15" mi="0" ci="3"/>
    </sourcefile>
    <class name="com/example/Bar" sourcefilename="Bar.java"></class>
    <sourcefile name="Bar.java">
      <line nr="1" mi="0" ci="1"/>
      <line nr="2" mi="1" ci="0"/>
    </sourcefile>
  </package>
</report>"#;
    let data = jacoco::parse(input).unwrap();

    assert_eq!(data.files.len(), 2);

    let foo = &data.files[0];
    assert_eq!(foo.path, "com/example/Foo.java");
    assert_eq!(foo.lines.len(), 5);
    assert_eq!(foo.lines[0].line_number, 3);
    assert_eq!(foo.lines[0].hit_count, 3);
    assert_eq!(foo.lines[1].line_number, 10);
    assert_eq!(foo.lines[1].hit_count, 5);
    assert_eq!(foo.lines[2].line_number, 11);
    assert_eq!(foo.lines[2].hit_count, 5);
    assert_eq!(foo.lines[3].line_number, 12);
    assert_eq!(foo.lines[3].hit_count, 0);
    assert_eq!(foo.lines[4].line_number, 15);
    assert_eq!(foo.lines[4].hit_count, 3);

    // Branch on line 11: cb=1, mb=1 -> 2 branch arms
    assert_eq!(foo.branches.len(), 2);
    assert_eq!(foo.branches[0].line_number, 11);
    assert_eq!(foo.branches[0].hit_count, 1);
    assert_eq!(foo.branches[1].line_number, 11);
    assert_eq!(foo.branches[1].hit_count, 0);

    // Methods extracted from <class>
    assert_eq!(foo.functions.len(), 2);
    assert_eq!(foo.functions[0].name, "<init>");
    assert_eq!(foo.functions[0].start_line, Some(3));
    assert_eq!(foo.functions[0].hit_count, 1);
    assert_eq!(foo.functions[1].name, "doStuff");
    assert_eq!(foo.functions[1].start_line, Some(10));
    assert_eq!(foo.functions[1].hit_count, 1);

    let bar = &data.files[1];
    assert_eq!(bar.path, "com/example/Bar.java");
    assert_eq!(bar.lines.len(), 2);
    assert_eq!(bar.branches.len(), 0);
}

#[test]
fn test_parse_jacoco_no_package() {
    let input = br#"<?xml version="1.0"?>
<report name="t"><package><sourcefile name="App.java">
<line nr="1" mi="0" ci="1"/><line nr="2" mi="1" ci="0"/>
</sourcefile></package></report>"#;
    let data = jacoco::parse(input).unwrap();

    assert_eq!(data.files.len(), 1);
    // Without a package, the path is just the source file name.
    assert_eq!(data.files[0].path, "App.java");
    assert_eq!(data.files[0].lines.len(), 2);
}

#[test]
fn test_parse_jacoco_empty() {
    let input = br#"<?xml version="1.0"?><report name="x"></report>"#;
    let data = jacoco::parse(input).unwrap();
    assert_eq!(data.files.len(), 0);
}

#[test]
fn test_parse_jacoco_malformed() {
    let input = br#"<?xml version="1.0"?><report><a></b></report>"#;
    let result = jacoco::parse(input);
    assert!(result.is_err());
    let err_msg = result.unwrap_err().message();
    assert!(
        err_msg.contains("position"),
        "Error should contain position info: {err_msg}",
    );
}

#[test]
fn test_can_parse_jacoco() {
    let parser = covrs::parsers::JacocoParser;

    // JaCoCo with DTD reference
    let content = br#"<?xml version="1.0" encoding="UTF-8"?><!DOCTYPE report PUBLIC "-//JACOCO//DTD Report 1.1//EN" "report.dtd"><report name="test">"#;
    assert!(parser.can_parse("jacoco.xml", content));

    // JaCoCo without DTD but with <package>
    let content = br#"<?xml version="1.0"?><report name="test"><package name="com/example">"#;
    assert!(parser.can_parse("report.xml", content));

    // Cobertura should NOT match
    let content = br#"<?xml version="1.0"?><coverage version="1.0">"#;
    assert!(!parser.can_parse("coverage.xml", content));
}
