use covrs::diff::{parse_diff, parse_hunk_header};

const MODIFIED_FILE_DIFF: &str = "\
diff --git a/src/main.rs b/src/main.rs
--- a/src/main.rs
+++ b/src/main.rs
@@ -8,6 +8,8 @@
 context a
 context b
 context c
+    let y = 2;
+    let z = x + y;
 context d
+    println z
 context e
";

#[test]
fn test_parse_hunk_header() {
    assert_eq!(parse_hunk_header("@@ -10,5 +20,8 @@"), Some(20));
    assert_eq!(parse_hunk_header("@@ -0,0 +1,3 @@"), Some(1));
    assert_eq!(parse_hunk_header("@@ -5 +5 @@"), Some(5));
}

#[test]
fn test_parse_diff() {
    let result = parse_diff(MODIFIED_FILE_DIFF);
    assert_eq!(result.len(), 1);
    let lines = result.get("src/main.rs").unwrap();
    // Line 11 (y=2), line 12 (z=x+y), line 14 (println z)
    assert_eq!(lines, &[11, 12, 14]);
}

#[test]
fn test_parse_diff_new_file() {
    let diff = "\
diff --git a/src/new.rs b/src/new.rs
--- /dev/null
+++ b/src/new.rs
@@ -0,0 +1,3 @@
+line one
+line two
+line three
";
    let result = parse_diff(diff);
    let lines = result.get("src/new.rs").unwrap();
    assert_eq!(lines, &[1, 2, 3]);
}

#[test]
fn test_parse_diff_deleted_file() {
    let diff = "\
diff --git a/src/old.rs b/src/old.rs
--- a/src/old.rs
+++ /dev/null
@@ -1,3 +0,0 @@
-line one
-line two
-line three
";
    let result = parse_diff(diff);
    assert!(result.is_empty());
}

#[test]
fn test_parse_diff_no_newline_at_eof() {
    let diff = "\
--- a/src/lib.rs
+++ b/src/lib.rs
@@ -1,2 +1,3 @@
 fn main() {
-println hello
\\ No newline at end of file
+println world
+}
\\ No newline at end of file
";
    let result = parse_diff(diff);
    assert_eq!(result.len(), 1);
    let lines = result.get("src/lib.rs").unwrap();
    // The "\ No newline at end of file" marker must not shift line numbers.
    assert_eq!(lines, &[2, 3]);
}

#[test]
fn test_parse_diff_multiple_files() {
    let diff = "\
--- a/a.rs
+++ b/a.rs
@@ -1,2 +1,2 @@
 one
+two
--- a/b.rs
+++ b/b.rs
@@ -1,2 +1,2 @@
 one
+two
";
    let result = parse_diff(diff);
    assert_eq!(result.len(), 2);
    assert_eq!(result.get("a.rs").unwrap(), &[2]);
    assert_eq!(result.get("b.rs").unwrap(), &[2]);
}

#[test]
fn test_apply_path_prefix() {
    let parsed = parse_diff("+++ b/app.rs\n@@ -0,0 +1,1 @@\n+x\n");
    let prefixed = covrs::diff::apply_path_prefix(parsed, "project/");
    assert!(prefixed.get("project/app.rs").is_some());
    assert!(prefixed.get("app.rs").is_none());
}
