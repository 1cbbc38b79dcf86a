use covrs::report::{coalesce_ranges, format_line_ranges, format_line_ranges_linked};

// -- coalesce_ranges tests ---------------------------------------------

#[test]
fn test_coalesce_ranges_empty() {
    assert_eq!(coalesce_ranges(&[], &[]), Vec::<(u32, u32)>::new());
}

#[test]
fn test_coalesce_ranges_single() {
    assert_eq!(coalesce_ranges(&[5], &[5]), vec![(5, 5)]);
}

#[test]
fn test_coalesce_ranges_consecutive() {
    assert_eq!(coalesce_ranges(&[1, 2, 3], &[1, 2, 3]), vec![(1, 3)]);
}

#[test]
fn test_coalesce_ranges_bridges_one_non_instrumentable() {
    // Lines 1,2,4,5 uncovered; line 3 not instrumentable: bridge
    assert_eq!(coalesce_ranges(&[1, 2, 4, 5], &[1, 2, 4, 5]), vec![(1, 5)]);
}

#[test]
fn test_coalesce_ranges_bridges_two_non_instrumentable() {
    // Lines 1,2,5,6 uncovered; lines 3,4 not instrumentable: bridge
    assert_eq!(coalesce_ranges(&[1, 2, 5, 6], &[1, 2, 5, 6]), vec![(1, 6)]);
}

#[test]
fn test_coalesce_ranges_no_bridge_three_non_instrumentable() {
    // Lines 1,2,6,7 uncovered; lines 3,4,5 not instrumentable: too wide
    assert_eq!(
        coalesce_ranges(&[1, 2, 6, 7], &[1, 2, 6, 7]),
        vec![(1, 2), (6, 7)]
    );
}

#[test]
fn test_coalesce_ranges_no_bridge_covered_in_gap() {
    // Lines 1,2,4,5 uncovered; line 3 is instrumentable (covered): no bridge
    assert_eq!(
        coalesce_ranges(&[1, 2, 4, 5], &[1, 2, 3, 4, 5]),
        vec![(1, 2), (4, 5)]
    );
}

#[test]
fn test_coalesce_ranges_mixed() {
    assert_eq!(
        coalesce_ranges(&[1, 2, 4, 5, 10], &[1, 2, 4, 5, 10]),
        vec![(1, 5), (10, 10)]
    );
}

// -- format_line_ranges tests ------------------------------------------

#[test]
fn test_format_line_ranges_empty() {
    assert_eq!(format_line_ranges(&[], &[]), "");
}

#[test]
fn test_format_line_ranges_single() {
    assert_eq!(format_line_ranges(&[5], &[5]), "5");
}

#[test]
fn test_format_line_ranges_consecutive() {
    assert_eq!(format_line_ranges(&[1, 2, 3], &[1, 2, 3]), "1-3");
}

#[test]
fn test_format_line_ranges_mixed() {
    // All lines instrumentable: no bridging across gaps
    assert_eq!(
        format_line_ranges(&[1, 3, 4, 5, 10], &[1, 2, 3, 4, 5, 6, 7, 8, 9, 10]),
        "1, 3-5, 10"
    );
}

#[test]
fn test_format_line_ranges_bridges_gap() {
    // Lines 1,2,4,5 uncovered; line 3 not instrumentable: "1-5"
    assert_eq!(format_line_ranges(&[1, 2, 4, 5], &[1, 2, 4, 5]), "1-5");
}

// -- format_line_ranges_linked tests -----------------------------------

#[test]
fn test_format_line_ranges_linked_empty() {
    assert_eq!(
        format_line_ranges_linked(&[], &[], "abc123", "src/foo.rs"),
        ""
    );
}

#[test]
fn test_format_line_ranges_linked_single() {
    assert_eq!(
        format_line_ranges_linked(&[5], &[5], "abc123", "src/foo.rs"),
        "[5](../blob/abc123/src/foo.rs#L5)"
    );
}

#[test]
fn test_format_line_ranges_linked_consecutive() {
    assert_eq!(
        format_line_ranges_linked(&[1, 2, 3], &[1, 2, 3], "abc123", "src/foo.rs"),
        "[1-3](../blob/abc123/src/foo.rs#L1-L3)"
    );
}

#[test]
fn test_format_line_ranges_linked_mixed() {
    assert_eq!(
        format_line_ranges_linked(
            &[1, 3, 4, 5, 10],
            &[1, 2, 3, 4, 5, 6, 7, 8, 9, 10],
            "abc123",
            "src/foo.rs"
        ),
        "[1](../blob/abc123/src/foo.rs#L1), [3-5](../blob/abc123/src/foo.rs#L3-L5), [10](../blob/abc123/src/foo.rs#L10)"
    );
}

#[test]
fn test_format_line_ranges_linked_bridges_gap() {
    assert_eq!(
        format_line_ranges_linked(&[1, 2, 4, 5], &[1, 2, 4, 5], "abc123", "src/foo.rs"),
        "[1-5](../blob/abc123/src/foo.rs#L1-L5)"
    );
}
