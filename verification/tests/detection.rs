use covrs::detect::{detect_format, Format};
use covrs::parsers;

#[test]
fn detect_test_detect_lcov_by_extension() {
    assert_eq!(detect_format("coverage.info", b""), Some(Format::Lcov));
    assert_eq!(detect_format("coverage.lcov", b""), Some(Format::Lcov));
}

#[test]
fn detect_test_detect_lcov_by_content() {
    let content = b"TN:test\nSF:/src/lib.rs\nDA:1,5\nend_of_record\n";
    assert_eq!(detect_format("coverage.txt", content), Some(Format::Lcov));
}

#[test]
fn detect_test_detect_cobertura_by_content() {
    let content = b"<?xml version=\"1.0\"?>\n<coverage version=\"1.0\">";
    assert_eq!(detect_format("coverage.xml", content), Some(Format::Cobertura));
}

#[test]
fn detect_test_detect_unknown() {
    assert_eq!(detect_format("random.dat", b"hello world"), None);
}

#[test]
fn mod_test_detect_lcov_by_extension() {
    assert_eq!(parsers::detect("coverage.info", b""), Some(parsers::Format::Lcov));
    assert_eq!(parsers::detect("coverage.lcov", b""), Some(parsers::Format::Lcov));
}

#[test]
fn mod_test_detect_lcov_by_content() {
    let content = b"TN:test\nSF:/src/lib.rs\nDA:1,5\nend_of_record\n";
    assert_eq!(parsers::detect("coverage.txt", content), Some(parsers::Format::Lcov));
}

#[test]
fn test_detect_jacoco_by_content() {
    let content = b"<?xml version=\"1.0\"?>\n<report name=\"test\"><package name=\"com/example\">";
    assert_eq!(parsers::detect("jacoco.xml", content), Some(parsers::Format::Jacoco));
}

#[test]
fn test_detect_jacoco_by_doctype() {
    let content = b"<?xml version=\"1.0\"?><!DOCTYPE report PUBLIC \"-//JACOCO//DTD Report 1.1//EN\" \"report.dtd\"><report name=\"test\">";
    assert_eq!(parsers::detect("report.xml", content), Some(parsers::Format::Jacoco));
}

#[test]
fn mod_test_detect_cobertura_by_content() {
    let content = b"<?xml version=\"1.0\"?>\n<coverage version=\"1.0\">";
    assert_eq!(parsers::detect("coverage.xml", content), Some(parsers::Format::Cobertura));
}

#[test]
fn test_detect_gocover_by_extension() {
    assert_eq!(parsers::detect("coverage.coverprofile", b""), Some(parsers::Format::Gocover));
    assert_eq!(parsers::detect("coverage.gocov", b""), Some(parsers::Format::Gocover));
}

#[test]
fn test_detect_gocover_by_content() {
    let content = b"mode: count\ngithub.com/user/repo/main.go:10.1,20.5 3 1\n";
    assert_eq!(parsers::detect("coverage.out", content), Some(parsers::Format::Gocover));
}

#[test]
fn test_detect_istanbul_by_filename() {
    assert_eq!(parsers::detect("coverage-final.json", b""), Some(parsers::Format::Istanbul));
}

#[test]
fn test_detect_istanbul_by_content() {
    let content = br#"{ "/src/lib.js": { "statementMap": { "0": { "start": { "line": 1 } } }, "s": { "0": 1 }, "fnMap": {}, "f": {} } }"#;
    assert_eq!(parsers::detect("coverage.json", content), Some(parsers::Format::Istanbul));
}

#[test]
fn mod_test_detect_unknown() {
    assert!(parsers::detect("random.dat", b"hello world").is_none());
}

#[test]
fn test_detect_clover_by_content() {
    let content = br#"<?xml version="1.0"?><coverage generated="123" clover="4.4.1"><project>"#;
    assert_eq!(parsers::detect("clover.xml", content), Some(parsers::Format::Clover));
}

#[test]
fn format_override_names_fold_case() {
    assert_eq!(parsers::format_from_name("LCOV"), Some(parsers::Format::Lcov));
    assert_eq!(parsers::format_from_name("Cobertura"), Some(parsers::Format::Cobertura));
    assert_eq!(parsers::format_from_name("GO"), Some(parsers::Format::Gocover));
    assert_eq!(parsers::format_from_name("Nyc"), Some(parsers::Format::Istanbul));
    assert_eq!(parsers::format_from_name("JaCoCo"), Some(parsers::Format::Jacoco));
    assert_eq!(parsers::format_from_name("unknown"), None);
}
