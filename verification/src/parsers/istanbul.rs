//! Parser for Istanbul / NYC `coverage-final.json`: a JSON object keyed
//! by file path. Per entry, statements (`statementMap` + `s`) become line
//! rows grouped by start line with the largest count; branches
//! (`branchMap` + `b`) become one arm per recorded count, located at the
//! branch's `loc.start.line` (or its first location), under a running
//! per-line index; functions (`fnMap` + `f`) carry their name (or
//! `(anonymous)`), declaration and end lines, and hit count. Rows are
//! ordered: lines and branches by position, functions by start line.
//! Files come out in the JSON map's key order, as serde_json yields it.
//!
//! The result is pinned exactly: a fold over the parsed tree
//! (`spec_parse_istanbul`) says which rows come out of which entries.

use vstd::prelude::*;
use vstd::string::{StrSliceExecFns, StringSliceAdditionalSpecFns};
use crate::error::CovrsError;
use crate::model::{
    BranchCoverage, CoverageData, FileCoverage, FileCoverageView, FunctionCoverage,
    FunctionCoverageView, LineCoverage,
};
use crate::json::{
    Json, parse_json, spec_json_ok, spec_json_tree, spec_get, spec_as_object, spec_as_array,
    spec_as_u64, spec_as_str,
};
use crate::text::{spec_starts_with, spec_trim_start, bytes_eq, starts_with};
use crate::diff::clone_string;
use crate::parsers::gocover::{insert_line_max_exec, spec_insert_line_max};
use crate::parsers::lcov::{assoc_u32, assoc_u32_set, assoc_u32_lookup, assoc_u32_set_pub};
use crate::parsers::jacoco::{lines_sorted, files_sorted};

verus! {

/// Whether `s` holds `pat` as a contiguous run.
pub open spec fn spec_contains_seq(s: Seq<u8>, pat: Seq<u8>) -> bool {
    exists|i: int|
        0 <= i <= s.len() - pat.len() && #[trigger] s.subrange(i, i + pat.len()) =~= pat
}

/// Whether the byte slice holds `pat` as a contiguous run.
pub fn contains_seq(s: &[u8], pat: &[u8]) -> (r: bool)
    ensures
        r == spec_contains_seq(s@, pat@),
{
    if pat.len() > s.len() {
        proof {
            if spec_contains_seq(s@, pat@) {
                let i = choose|i: int|
                    0 <= i <= s@.len() - pat@.len() && #[trigger] s@.subrange(i, i + pat@.len())
                        =~= pat@;
            }
        }
        return false;
    }
    let plen = pat.len();
    let slen = s.len();
    let n = slen - plen;
    let mut i: usize = 0;
    while i <= n
        invariant
            pat@.len() <= s@.len(),
            plen == pat@.len(),
            slen == s@.len(),
            n == s@.len() - pat@.len(),
            0 <= i <= n + 1,
            forall|j: int| 0 <= j < i ==> !(#[trigger] s@.subrange(j, j + pat@.len()) =~= pat@),
        decreases n + 1 - i,
    {
        let window = vstd::slice::slice_subrange(s, i, i + plen);
        if bytes_eq(window, pat) {
            proof {
                assert(s@.subrange(i as int, i + pat@.len()) =~= pat@);
            }
            return true;
        }
        proof {
            assert(window@ =~= s@.subrange(i as int, i + pat@.len()));
        }
        i += 1;
    }
    proof {
        if spec_contains_seq(s@, pat@) {
            let j = choose|j: int|
                0 <= j <= s@.len() - pat@.len() && #[trigger] s@.subrange(j, j + pat@.len())
                    =~= pat@;
            assert(!(s@.subrange(j, j + pat@.len()) =~= pat@));
        }
    }
    false
}

/// Content-based detection: a JSON object that mentions both
/// `statementMap` and `fnMap` in its head.
pub fn looks_like_istanbul(head: &str) -> (r: bool)
    ensures
        r == (spec_starts_with(spec_trim_start(head.spec_bytes()), seq![123u8])
            && spec_contains_seq(
            spec_trim_start(head.spec_bytes()),
            spec_stmt_map_marker(),
        ) && spec_contains_seq(spec_trim_start(head.spec_bytes()), spec_fn_map_marker())),
{
    let bytes = head.as_bytes();
    let trimmed = crate::parsers::gocover::skip_ws_pub(bytes);
    let brace: Vec<u8> = vec![123];
    proof {
        assert(brace@ =~= seq![123u8]);
    }
    if !starts_with(trimmed, brace.as_slice()) {
        return false;
    }
    let stmt_marker: Vec<u8> = vec![
        34, 115, 116, 97, 116, 101, 109, 101, 110, 116, 77, 97, 112, 34,
    ];
    let fn_marker: Vec<u8> = vec![34, 102, 110, 77, 97, 112, 34];
    proof {
        assert(stmt_marker@ =~= spec_stmt_map_marker());
        assert(fn_marker@ =~= spec_fn_map_marker());
    }
    contains_seq(trimmed, stmt_marker.as_slice()) && contains_seq(trimmed, fn_marker.as_slice())
}

/// The bytes of `"statementMap"`, quotes included.
pub open spec fn spec_stmt_map_marker() -> Seq<u8> {
    seq![
        34u8,
        115u8,
        116u8,
        97u8,
        116u8,
        101u8,
        109u8,
        101u8,
        110u8,
        116u8,
        77u8,
        97u8,
        112u8,
        34u8,
    ]
}

/// The bytes of `"fnMap"`, quotes included.
pub open spec fn spec_fn_map_marker() -> Seq<u8> {
    seq![34u8, 102u8, 110u8, 77u8, 97u8, 112u8, 34u8]
}

/// A count's unsigned reading, zero when absent or not a number.
pub open spec fn spec_count_of(c: Option<Json>) -> u64 {
    match c {
        Some(j) => match spec_as_u64(j) {
            Some(v) => v,
            None => 0,
        },
        None => 0,
    }
}

/// The `start.line` of a location object, truncated to `u32`.
pub open spec fn spec_loc_start_line(loc: Json) -> Option<u32> {
    match spec_get(loc, "start"@) {
        None => None,
        Some(s) => match spec_get(s, "line"@) {
            None => None,
            Some(l) => match spec_as_u64(l) {
                None => None,
                Some(v) => Some(v as u32),
            },
        },
    }
}

/// The `start.line` of a location object, as a `u32`.
fn loc_start_line(loc: &Json) -> (r: Option<u32>)
    ensures
        r == spec_loc_start_line(*loc),
{
    match loc.get("start") {
        None => None,
        Some(s) => match s.get("line") {
            None => None,
            Some(l) => match l.as_u64() {
                None => None,
                Some(v) => Some(#[verifier::truncate] (v as u32)),
            },
        },
    }
}

/// Statement entries folded into line rows: each statement with a start
/// line feeds that line the largest count seen.
pub open spec fn spec_stmt_fold(
    stmts: Seq<(String, Json)>,
    s_counts: Json,
    lines: Seq<LineCoverage>,
) -> Seq<LineCoverage>
    decreases stmts.len(),
{
    if stmts.len() == 0 {
        lines
    } else {
        let lines2 = match spec_loc_start_line(stmts[0].1) {
            None => lines,
            Some(ln) => spec_insert_line_max(
                lines,
                ln,
                spec_count_of(spec_get(s_counts, stmts[0].0@)),
            ),
        };
        spec_stmt_fold(stmts.drop_first(), s_counts, lines2)
    }
}

/// The line rows an entry's statements produce.
pub open spec fn spec_istanbul_lines(entry: Json) -> Seq<LineCoverage> {
    match (spec_get(entry, "statementMap"@), spec_get(entry, "s"@)) {
        (Some(sm), Some(sc)) => match spec_as_object(sm) {
            Some(stmts) => spec_stmt_fold(stmts@, sc, Seq::empty()),
            None => Seq::empty(),
        },
        _ => Seq::empty(),
    }
}

/// A branch row inserted in `(line, index)` order, after equals.
pub open spec fn spec_insert_branch(rows: Seq<BranchCoverage>, bc: BranchCoverage) -> Seq<
    BranchCoverage,
>
    decreases rows.len(),
{
    if bc.line_number == 0 {
        rows
    } else if rows.len() == 0 {
        seq![bc]
    } else if rows[0].line_number > bc.line_number || (rows[0].line_number == bc.line_number
        && rows[0].branch_index > bc.branch_index) {
        seq![bc] + rows
    } else {
        seq![rows[0]] + spec_insert_branch(rows.drop_first(), bc)
    }
}

/// The line a branch entry sits on: its `loc.start.line`, or the first
/// of its `locations`.
pub open spec fn spec_branch_arm_line(info: Json) -> Option<u32> {
    let first = match spec_get(info, "loc"@) {
        Some(loc) => spec_loc_start_line(loc),
        None => None,
    };
    match first {
        Some(v) => Some(v),
        None => match spec_get(info, "locations"@) {
            Some(locs) => match spec_as_array(locs) {
                Some(arr) => if arr@.len() > 0 {
                    spec_loc_start_line(arr@[0])
                } else {
                    None
                },
                None => None,
            },
            None => None,
        },
    }
}

/// One branch's recorded counts folded into rows at line `ln`, under the
/// running per-line index.
pub open spec fn spec_arm_fold(
    arr: Seq<Json>,
    ln: u32,
    st: (Seq<BranchCoverage>, Seq<(u32, u32)>),
) -> (Seq<BranchCoverage>, Seq<(u32, u32)>)
    decreases arr.len(),
{
    if arr.len() == 0 {
        st
    } else {
        let hit = match spec_as_u64(arr[0]) {
            Some(v) => v,
            None => 0,
        };
        let idx = match assoc_u32(st.1, ln) {
            Some(v) => v,
            None => 0,
        };
        let rows2 = spec_insert_branch(
            st.0,
            BranchCoverage { line_number: ln, branch_index: idx, hit_count: hit },
        );
        let li2 = assoc_u32_set(
            st.1,
            ln,
            if idx == u32::MAX {
                idx
            } else {
                (idx + 1) as u32
            },
        );
        spec_arm_fold(arr.drop_first(), ln, (rows2, li2))
    }
}

/// Branch entries folded into branch rows with their per-line indices.
pub open spec fn spec_branch_fold(
    branches: Seq<(String, Json)>,
    b_counts: Json,
    st: (Seq<BranchCoverage>, Seq<(u32, u32)>),
) -> (Seq<BranchCoverage>, Seq<(u32, u32)>)
    decreases branches.len(),
{
    if branches.len() == 0 {
        st
    } else {
        let st2 = match spec_branch_arm_line(branches[0].1) {
            None => st,
            Some(ln) => match spec_get(b_counts, branches[0].0@) {
                None => st,
                Some(counts) => match spec_as_array(counts) {
                    None => st,
                    Some(arr) => spec_arm_fold(arr@, ln, st),
                },
            },
        };
        spec_branch_fold(branches.drop_first(), b_counts, st2)
    }
}

/// The branch rows an entry's branches produce.
pub open spec fn spec_istanbul_branches(entry: Json) -> Seq<BranchCoverage> {
    match (spec_get(entry, "branchMap"@), spec_get(entry, "b"@)) {
        (Some(bm), Some(bc)) => match spec_as_object(bm) {
            Some(bs) => spec_branch_fold(bs@, bc, (Seq::empty(), Seq::empty())).0,
            None => Seq::empty(),
        },
        _ => Seq::empty(),
    }
}

/// The sort key of a function row: rows without a start line first.
pub open spec fn spec_fn_sort_key(start_line: Option<u32>) -> u64 {
    match start_line {
        Some(v) => (v + 1) as u64,
        None => 0,
    }
}

/// A function row inserted in start-line order, after equals.
pub open spec fn spec_insert_function(
    rows: Seq<FunctionCoverageView>,
    fc: FunctionCoverageView,
) -> Seq<FunctionCoverageView>
    decreases rows.len(),
{
    if rows.len() == 0 {
        seq![fc]
    } else if spec_fn_sort_key(rows[0].start_line) > spec_fn_sort_key(fc.start_line) {
        seq![fc] + rows
    } else {
        seq![rows[0]] + spec_insert_function(rows.drop_first(), fc)
    }
}

/// A function entry's name, `(anonymous)` when absent.
pub open spec fn spec_fn_name(info: Json) -> Seq<char> {
    match spec_get(info, "name"@) {
        Some(nv) => match spec_as_str(nv) {
            Some(s) => s@,
            None => "(anonymous)"@,
        },
        None => "(anonymous)"@,
    }
}

/// A function entry's start line: its `decl` location, else its `loc`.
pub open spec fn spec_fn_start(info: Json) -> Option<u32> {
    match spec_get(info, "decl"@) {
        Some(decl) => spec_loc_start_line(decl),
        None => match spec_get(info, "loc"@) {
            Some(loc) => spec_loc_start_line(loc),
            None => None,
        },
    }
}

/// A function entry's end line: its `loc.end.line`.
pub open spec fn spec_fn_end(info: Json) -> Option<u32> {
    match spec_get(info, "loc"@) {
        Some(loc) => match spec_get(loc, "end"@) {
            Some(endv) => match spec_get(endv, "line"@) {
                Some(l) => match spec_as_u64(l) {
                    Some(v) => Some(v as u32),
                    None => None,
                },
                None => None,
            },
            None => None,
        },
        None => None,
    }
}

/// Function entries folded into function rows.
pub open spec fn spec_fn_fold(
    fns: Seq<(String, Json)>,
    f_counts: Json,
    rows: Seq<FunctionCoverageView>,
) -> Seq<FunctionCoverageView>
    decreases fns.len(),
{
    if fns.len() == 0 {
        rows
    } else {
        let fc = FunctionCoverageView {
            name: spec_fn_name(fns[0].1),
            start_line: spec_fn_start(fns[0].1),
            end_line: spec_fn_end(fns[0].1),
            hit_count: spec_count_of(spec_get(f_counts, fns[0].0@)),
        };
        spec_fn_fold(fns.drop_first(), f_counts, spec_insert_function(rows, fc))
    }
}

/// The function rows an entry's functions produce.
pub open spec fn spec_istanbul_functions(entry: Json) -> Seq<FunctionCoverageView> {
    match (spec_get(entry, "fnMap"@), spec_get(entry, "f"@)) {
        (Some(fm), Some(fc)) => match spec_as_object(fm) {
            Some(fs) => spec_fn_fold(fs@, fc, Seq::empty()),
            None => Seq::empty(),
        },
        _ => Seq::empty(),
    }
}

/// The file record one entry of the document produces.
pub open spec fn spec_istanbul_file(path: Seq<char>, entry: Json) -> FileCoverageView {
    FileCoverageView {
        path,
        lines: spec_istanbul_lines(entry),
        branches: spec_istanbul_branches(entry),
        functions: spec_istanbul_functions(entry),
    }
}

/// The file records an Istanbul document parses to: one per entry of the
/// top-level object, in entry order; none for any other document.
pub open spec fn spec_parse_istanbul(doc: Json) -> Seq<FileCoverageView> {
    match spec_as_object(doc) {
        Some(entries) => Seq::new(
            entries@.len() as nat,
            |i: int| spec_istanbul_file(entries@[i].0@, entries@[i].1),
        ),
        None => Seq::empty(),
    }
}


/// A sorted branch insertion keeps every row on line 1 or later.
proof fn lemma_insert_branch_pos(rows: Seq<BranchCoverage>, bc: BranchCoverage)
    requires
        forall|j: int| 0 <= j < rows.len() ==> (#[trigger] rows[j]).line_number >= 1,
    ensures
        forall|j: int|
            0 <= j < spec_insert_branch(rows, bc).len() ==> (#[trigger] spec_insert_branch(
                rows,
                bc,
            )[j]).line_number >= 1,
    decreases rows.len(),
{
    let out = spec_insert_branch(rows, bc);
    if bc.line_number == 0 {
        assert(out == rows);
    } else if rows.len() == 0 {
        assert(out =~= seq![bc]);
    } else if rows[0].line_number > bc.line_number || (rows[0].line_number == bc.line_number
        && rows[0].branch_index > bc.branch_index) {
        assert(out =~= seq![bc] + rows);
        assert(forall|j: int| 1 <= j < out.len() ==> #[trigger] out[j] == rows[j - 1]);
    } else {
        let rest = rows.drop_first();
        assert(forall|k: int| 0 <= k < rest.len() ==> #[trigger] rest[k] == rows[k + 1]);
        lemma_insert_branch_pos(rest, bc);
        let out2 = spec_insert_branch(rest, bc);
        assert(out =~= seq![rows[0]] + out2);
        assert(forall|j: int| 1 <= j < out.len() ==> #[trigger] out[j] == out2[j - 1]);
    }
}

/// The statement fold keeps every line row on line 1 or later.
proof fn lemma_stmt_fold_pos(stmts: Seq<(String, Json)>, s_counts: Json, lines: Seq<LineCoverage>)
    requires
        forall|j: int| 0 <= j < lines.len() ==> (#[trigger] lines[j]).line_number >= 1,
    ensures
        forall|j: int|
            0 <= j < spec_stmt_fold(stmts, s_counts, lines).len() ==> (#[trigger] spec_stmt_fold(
                stmts,
                s_counts,
                lines,
            )[j]).line_number >= 1,
    decreases stmts.len(),
{
    if stmts.len() == 0 {
    } else {
        let lines2 = match spec_loc_start_line(stmts[0].1) {
            None => lines,
            Some(ln) => spec_insert_line_max(
                lines,
                ln,
                spec_count_of(spec_get(s_counts, stmts[0].0@)),
            ),
        };
        match spec_loc_start_line(stmts[0].1) {
            None => {},
            Some(ln) => {
                crate::parsers::gocover::lemma_insert_max_pos(
                    lines,
                    ln,
                    spec_count_of(spec_get(s_counts, stmts[0].0@)),
                );
            },
        }
        lemma_stmt_fold_pos(stmts.drop_first(), s_counts, lines2);
        assert forall|j: int|
            0 <= j < spec_stmt_fold(stmts, s_counts, lines).len() implies (
        #[trigger] spec_stmt_fold(stmts, s_counts, lines)[j]).line_number >= 1 by {
            assert(spec_stmt_fold(stmts, s_counts, lines)[j] == spec_stmt_fold(
                stmts.drop_first(),
                s_counts,
                lines2,
            )[j]);
        }
    }
}

/// The per-branch arm fold keeps every branch row on line 1 or later.
proof fn lemma_arm_fold_pos(arr: Seq<Json>, ln: u32, st: (Seq<BranchCoverage>, Seq<(u32, u32)>))
    requires
        forall|j: int| 0 <= j < st.0.len() ==> (#[trigger] st.0[j]).line_number >= 1,
    ensures
        forall|j: int|
            0 <= j < spec_arm_fold(arr, ln, st).0.len() ==> (#[trigger] spec_arm_fold(
                arr,
                ln,
                st,
            ).0[j]).line_number >= 1,
    decreases arr.len(),
{
    if arr.len() == 0 {
    } else {
        let hit = match spec_as_u64(arr[0]) {
            Some(v) => v,
            None => 0,
        };
        let idx = match assoc_u32(st.1, ln) {
            Some(v) => v,
            None => 0,
        };
        let rows2 = spec_insert_branch(
            st.0,
            BranchCoverage { line_number: ln, branch_index: idx, hit_count: hit },
        );
        lemma_insert_branch_pos(
            st.0,
            BranchCoverage { line_number: ln, branch_index: idx, hit_count: hit },
        );
        let li2 = assoc_u32_set(
            st.1,
            ln,
            if idx == u32::MAX {
                idx
            } else {
                (idx + 1) as u32
            },
        );
        lemma_arm_fold_pos(arr.drop_first(), ln, (rows2, li2));
        assert forall|j: int|
            0 <= j < spec_arm_fold(arr, ln, st).0.len() implies (#[trigger] spec_arm_fold(
                arr,
                ln,
                st,
            ).0[j]).line_number >= 1 by {
            assert(spec_arm_fold(arr, ln, st).0[j] == spec_arm_fold(
                arr.drop_first(),
                ln,
                (rows2, li2),
            ).0[j]);
        }
    }
}

/// The branch fold keeps every branch row on line 1 or later.
proof fn lemma_branch_fold_pos(
    branches: Seq<(String, Json)>,
    b_counts: Json,
    st: (Seq<BranchCoverage>, Seq<(u32, u32)>),
)
    requires
        forall|j: int| 0 <= j < st.0.len() ==> (#[trigger] st.0[j]).line_number >= 1,
    ensures
        forall|j: int|
            0 <= j < spec_branch_fold(branches, b_counts, st).0.len() ==> (
            #[trigger] spec_branch_fold(branches, b_counts, st).0[j]).line_number >= 1,
    decreases branches.len(),
{
    if branches.len() == 0 {
    } else {
        let st2 = match spec_branch_arm_line(branches[0].1) {
            None => st,
            Some(ln) => match spec_get(b_counts, branches[0].0@) {
                None => st,
                Some(counts) => match spec_as_array(counts) {
                    None => st,
                    Some(arr) => spec_arm_fold(arr@, ln, st),
                },
            },
        };
        match spec_branch_arm_line(branches[0].1) {
            None => {},
            Some(ln) => match spec_get(b_counts, branches[0].0@) {
                None => {},
                Some(counts) => match spec_as_array(counts) {
                    None => {},
                    Some(arr) => {
                        lemma_arm_fold_pos(arr@, ln, st);
                    },
                },
            },
        }
        lemma_branch_fold_pos(branches.drop_first(), b_counts, st2);
        assert forall|j: int|
            0 <= j < spec_branch_fold(branches, b_counts, st).0.len() implies (
        #[trigger] spec_branch_fold(branches, b_counts, st).0[j]).line_number >= 1 by {
            assert(spec_branch_fold(branches, b_counts, st).0[j] == spec_branch_fold(
                branches.drop_first(),
                b_counts,
                st2,
            ).0[j]);
        }
    }
}

/// Law: every line and branch row a parse emits sits on line 1 or later.
pub proof fn lemma_istanbul_rows_positive(doc: Json)
    ensures
        forall|k: int|
            0 <= k < spec_parse_istanbul(doc).len() ==> crate::model::rows_positive(
                #[trigger] spec_parse_istanbul(doc)[k],
            ),
{
    match spec_as_object(doc) {
        Some(entries) => {
            assert forall|k: int|
                0 <= k < spec_parse_istanbul(doc).len() implies crate::model::rows_positive(
                #[trigger] spec_parse_istanbul(doc)[k],
            ) by {
                let entry = entries@[k].1;
                assert(spec_parse_istanbul(doc)[k] == spec_istanbul_file(entries@[k].0@, entry));
                match (spec_get(entry, "statementMap"@), spec_get(entry, "s"@)) {
                    (Some(sm), Some(sc)) => match spec_as_object(sm) {
                        Some(stmts) => {
                            lemma_stmt_fold_pos(stmts@, sc, Seq::empty());
                        },
                        None => {},
                    },
                    _ => {},
                }
                match (spec_get(entry, "branchMap"@), spec_get(entry, "b"@)) {
                    (Some(bm), Some(bc)) => match spec_as_object(bm) {
                        Some(bs) => {
                            lemma_branch_fold_pos(
                                bs@,
                                bc,
                                (Seq::<BranchCoverage>::empty(), Seq::<(u32, u32)>::empty()),
                            );
                        },
                        None => {},
                    },
                    _ => {},
                }
            }
        },
        None => {},
    }
}

/// Statement rows of one entry, built into `f`.
fn stmt_section(f: &mut FileCoverage, entry: &Json)
    requires
        old(f)@.lines == Seq::<LineCoverage>::empty(),
    ensures
        final(f)@.lines == spec_istanbul_lines(*entry),
        lines_sorted(final(f)@.lines),
        final(f)@.path == old(f)@.path,
        final(f)@.branches == old(f)@.branches,
        final(f)@.functions == old(f)@.functions,
{
    let ghost f0 = f@;
    match (entry.get("statementMap"), entry.get("s")) {
        (Some(stmt_map), Some(s_counts)) => {
            match stmt_map.as_object() {
                None => {},
                Some(stmts) => {
                    let ghost cnt = *s_counts;
                    let m = stmts.len();
                    let mut k: usize = 0;
                    proof {
                        assert(stmts@.skip(0) =~= stmts@);
                    }
                    while k < m
                        invariant
                            m == stmts@.len(),
                            0 <= k <= m,
                            cnt == *s_counts,
                            lines_sorted(f@.lines),
                            f@.path == f0.path,
                            f@.branches == f0.branches,
                            f@.functions == f0.functions,
                            spec_stmt_fold(stmts@, cnt, Seq::empty()) == spec_stmt_fold(
                                stmts@.skip(k as int),
                                cnt,
                                f@.lines,
                            ),
                        decreases m - k,
                    {
                        proof {
                            assert(stmts@.skip(k as int)[0] == stmts@[k as int]);
                            assert(stmts@.skip(k as int).drop_first() =~= stmts@.skip(k + 1));
                        }
                        match loc_start_line(&stmts[k].1) {
                            None => {},
                            Some(ln) => {
                                let count: u64 = match s_counts.get(stmts[k].0.as_str()) {
                                    Some(c) => match c.as_u64() {
                                        Some(v) => v,
                                        None => 0,
                                    },
                                    None => 0,
                                };
                                proof {
                                    assert(count == spec_count_of(
                                        spec_get(cnt, stmts@[k as int].0@),
                                    ));
                                    crate::parsers::cobertura::lemma_insert_max_sorted(
                                        f@.lines,
                                        ln,
                                        count,
                                    );
                                }
                                insert_line_max_exec(&mut f.lines, ln, count);
                            },
                        }
                        k += 1;
                    }
                    proof {
                        assert(stmts@.skip(m as int) =~= Seq::<(String, Json)>::empty());
                    }
                },
            }
        },
        _ => {},
    }
}

/// Branch rows of one entry, built into `f`.
#[verifier::rlimit(100)]
fn branch_section(f: &mut FileCoverage, entry: &Json)
    requires
        old(f)@.branches == Seq::<BranchCoverage>::empty(),
    ensures
        final(f)@.branches == spec_istanbul_branches(*entry),
        final(f)@.path == old(f)@.path,
        final(f)@.lines == old(f)@.lines,
        final(f)@.functions == old(f)@.functions,
{
    let ghost f0 = f@;
    match (entry.get("branchMap"), entry.get("b")) {
        (Some(branch_map), Some(b_counts)) => {
            match branch_map.as_object() {
                None => {},
                Some(branches) => {
                    let ghost bcnt = *b_counts;
                    let mut line_idx: Vec<(u32, u32)> = Vec::new();
                    let m = branches.len();
                    let mut k: usize = 0;
                    proof {
                        assert(branches@.skip(0) =~= branches@);
                        assert(line_idx@ =~= Seq::<(u32, u32)>::empty());
                    }
                    while k < m
                        invariant
                            m == branches@.len(),
                            0 <= k <= m,
                            bcnt == *b_counts,
                            f@.path == f0.path,
                            f@.lines == f0.lines,
                            f@.functions == f0.functions,
                            spec_branch_fold(
                                branches@,
                                bcnt,
                                (Seq::<BranchCoverage>::empty(), Seq::<(u32, u32)>::empty()),
                            ) == spec_branch_fold(
                                branches@.skip(k as int),
                                bcnt,
                                (f@.branches, line_idx@),
                            ),
                        decreases m - k,
                    {
                        proof {
                            assert(branches@.skip(k as int)[0] == branches@[k as int]);
                            assert(branches@.skip(k as int).drop_first() =~= branches@.skip(k + 1));
                        }
                        let ghost st_entry = (f@.branches, line_idx@);
                        let info: &Json = &branches[k].1;
                        let line: Option<u32> = match info.get("loc") {
                            Some(loc) => loc_start_line(loc),
                            None => None,
                        };
                        let line: Option<u32> = match line {
                            Some(v) => Some(v),
                            None => match info.get("locations") {
                                Some(locs) => match locs.as_array() {
                                    Some(arr) => if arr.len() > 0 {
                                        loc_start_line(&arr[0])
                                    } else {
                                        None
                                    },
                                    None => None,
                                },
                                None => None,
                            },
                        };
                        proof {
                            assert(line == spec_branch_arm_line(branches@[k as int].1));
                        }
                        match line {
                            None => {},
                            Some(ln) => {
                                match b_counts.get(branches[k].0.as_str()) {
                                    None => {},
                                    Some(counts) => match counts.as_array() {
                                        None => {},
                                        Some(arr) => {
                                            let ghost st0 = (f@.branches, line_idx@);
                                            let c = arr.len();
                                            let mut a: usize = 0;
                                            proof {
                                                assert(arr@.skip(0) =~= arr@);
                                            }
                                            while a < c
                                                invariant
                                                    c == arr@.len(),
                                                    0 <= a <= c,
                                                    f@.path == f0.path,
                                                    f@.lines == f0.lines,
                                                    f@.functions == f0.functions,
                                                    spec_arm_fold(arr@, ln, st0) == spec_arm_fold(
                                                        arr@.skip(a as int),
                                                        ln,
                                                        (f@.branches, line_idx@),
                                                    ),
                                                decreases c - a,
                                            {
                                                proof {
                                                    assert(arr@.skip(a as int)[0] == arr@[
                                                        a as int
                                                    ]);
                                                    assert(arr@.skip(a as int).drop_first()
                                                        =~= arr@.skip(a + 1));
                                                }
                                                let hit: u64 = match arr[a].as_u64() {
                                                    Some(v) => v,
                                                    None => 0,
                                                };
                                                let idx = match assoc_u32_lookup(&line_idx, ln) {
                                                    Some(v) => v,
                                                    None => 0,
                                                };
                                                insert_branch_sorted(
                                                    &mut f.branches,
                                                    BranchCoverage {
                                                        line_number: ln,
                                                        branch_index: idx,
                                                        hit_count: hit,
                                                    },
                                                );
                                                assoc_u32_set_pub(
                                                    &mut line_idx,
                                                    ln,
                                                    if idx == u32::MAX {
                                                        idx
                                                    } else {
                                                        idx + 1
                                                    },
                                                );
                                                a += 1;
                                            }
                                            proof {
                                                assert(arr@.skip(c as int) =~= Seq::<
                                                    Json,
                                                >::empty());
                                            }
                                        },
                                    },
                                }
                            },
                        }
                        proof {
                            assert(spec_branch_fold(branches@.skip(k as int), bcnt, st_entry)
                                == spec_branch_fold(
                                branches@.skip(k + 1),
                                bcnt,
                                (f@.branches, line_idx@),
                            ));
                        }
                        k += 1;
                    }
                    proof {
                        assert(branches@.skip(m as int) =~= Seq::<(String, Json)>::empty());
                    }
                },
            }
        },
        _ => {},
    }
}

/// Function rows of one entry, built into `f`.
fn fn_section(f: &mut FileCoverage, entry: &Json)
    requires
        old(f)@.functions == Seq::<FunctionCoverageView>::empty(),
    ensures
        final(f)@.functions == spec_istanbul_functions(*entry),
        final(f)@.path == old(f)@.path,
        final(f)@.lines == old(f)@.lines,
        final(f)@.branches == old(f)@.branches,
{
    let ghost f0 = f@;
    match (entry.get("fnMap"), entry.get("f")) {
        (Some(fn_map), Some(f_counts)) => {
            match fn_map.as_object() {
                None => {},
                Some(fns) => {
                    let ghost fcnt = *f_counts;
                    let m = fns.len();
                    let mut k: usize = 0;
                    proof {
                        assert(fns@.skip(0) =~= fns@);
                    }
                    while k < m
                        invariant
                            m == fns@.len(),
                            0 <= k <= m,
                            fcnt == *f_counts,
                            f@.path == f0.path,
                            f@.lines == f0.lines,
                            f@.branches == f0.branches,
                            spec_fn_fold(fns@, fcnt, Seq::empty()) == spec_fn_fold(
                                fns@.skip(k as int),
                                fcnt,
                                f.functions.deep_view(),
                            ),
                        decreases m - k,
                    {
                        proof {
                            assert(fns@.skip(k as int)[0] == fns@[k as int]);
                            assert(fns@.skip(k as int).drop_first() =~= fns@.skip(k + 1));
                        }
                        let info: &Json = &fns[k].1;
                        let name: String = match info.get("name") {
                            Some(nv) => match nv.as_str_val() {
                                Some(s) => clone_string(s),
                                None => ("(anonymous)").to_owned(),
                            },
                            None => ("(anonymous)").to_owned(),
                        };
                        let start: Option<u32> = match info.get("decl") {
                            Some(decl) => loc_start_line(decl),
                            None => match info.get("loc") {
                                Some(loc) => loc_start_line(loc),
                                None => None,
                            },
                        };
                        let end: Option<u32> = match info.get("loc") {
                            Some(loc) => match loc.get("end") {
                                Some(endv) => match endv.get("line") {
                                    Some(l) => match l.as_u64() {
                                        Some(v) => Some(#[verifier::truncate] (v as u32)),
                                        None => None,
                                    },
                                    None => None,
                                },
                                None => None,
                            },
                            None => None,
                        };
                        let hit: u64 = match f_counts.get(fns[k].0.as_str()) {
                            Some(c) => match c.as_u64() {
                                Some(v) => v,
                                None => 0,
                            },
                            None => 0,
                        };
                        let fc = FunctionCoverage {
                            name,
                            start_line: start,
                            end_line: end,
                            hit_count: hit,
                        };
                        proof {
                            assert(fc@ == (FunctionCoverageView {
                                name: spec_fn_name(fns@[k as int].1),
                                start_line: spec_fn_start(fns@[k as int].1),
                                end_line: spec_fn_end(fns@[k as int].1),
                                hit_count: spec_count_of(spec_get(fcnt, fns@[k as int].0@)),
                            }));
                        }
                        insert_function_sorted(&mut f.functions, fc);
                        k += 1;
                    }
                    proof {
                        assert(fns@.skip(m as int) =~= Seq::<(String, Json)>::empty());
                    }
                },
            }
        },
        _ => {},
    }
}

/// Parse Istanbul JSON from raw bytes.
#[verifier::rlimit(100)]
pub fn parse(input: &[u8]) -> (r: Result<CoverageData, CovrsError>)
    ensures
        spec_json_ok(input@) == (spec_json_tree(input@) is Some),
        match r {
            Ok(d) => {
                &&& spec_json_ok(input@)
                &&& spec_json_tree(input@) matches Some(doc) && d@ == spec_parse_istanbul(doc)
                &&& files_sorted(d@)
            },
            Err(e) => {
                &&& !spec_json_ok(input@)
                &&& e matches CovrsError::Parse(m) && m@ == ("Invalid JSON in Istanbul file")@
            },
        },
{
    let doc = match parse_json(input) {
        Some(d) => d,
        None => {
            return Err(CovrsError::Parse(("Invalid JSON in Istanbul file").to_owned()));
        },
    };
    let mut files: Vec<FileCoverage> = Vec::new();
    let entries = match doc.as_object() {
        Some(m) => m,
        None => {
            // A JSON document that is not an object holds no files.
            proof {
                assert(files.deep_view() =~= Seq::<FileCoverageView>::empty());
            }
            return Ok(CoverageData { files });
        },
    };
    let ghost docv = doc;
    let n = entries.len();
    let mut e: usize = 0;
    proof {
        assert(files.deep_view() =~= Seq::new(
            0nat,
            |i: int| spec_istanbul_file(entries@[i].0@, entries@[i].1),
        ));
    }
    while e < n
        invariant
            n == entries@.len(),
            0 <= e <= n,
            files_sorted(files.deep_view()),
            files.deep_view() =~= Seq::new(
                e as nat,
                |i: int| spec_istanbul_file(entries@[i].0@, entries@[i].1),
            ),
        decreases n - e,
    {
        let path = clone_string(&entries[e].0);
        let entry: &Json = &entries[e].1;
        let mut f = FileCoverage::new(path);
        proof {
            assert(f@.lines =~= Seq::<LineCoverage>::empty());
            assert(f@.branches =~= Seq::<BranchCoverage>::empty());
            assert(f@.functions =~= Seq::<FunctionCoverageView>::empty());
        }
        stmt_section(&mut f, entry);
        branch_section(&mut f, entry);
        fn_section(&mut f, entry);
        proof {
            assert(f@ == spec_istanbul_file(entries@[e as int].0@, entries@[e as int].1));
        }
        let ghost fsv = files.deep_view();
        let ghost fv = f@;
        files.push(f);
        proof {
            assert(files.deep_view() =~= fsv.push(fv)) by {
                assert(forall|k: int|
                    0 <= k < fsv.len() ==> #[trigger] files.deep_view()[k] == files@[k]@);
                assert(files.deep_view()[fsv.len() as int] == fv);
            }
            assert(files.deep_view() =~= Seq::new(
                (e + 1) as nat,
                |i: int| spec_istanbul_file(entries@[i].0@, entries@[i].1),
            ));
            assert forall|k: int|
                0 <= k < files.deep_view().len() implies lines_sorted(
                (#[trigger] files.deep_view()[k]).lines,
            ) by {
                if k < fsv.len() {
                    assert(files.deep_view()[k] == fsv[k]);
                } else {
                    assert(files.deep_view()[k] == fv);
                }
            }
        }
        e += 1;
    }
    proof {
        assert(files.deep_view() =~= spec_parse_istanbul(docv));
    }
    Ok(CoverageData { files })
}

/// Where `spec_insert_branch` puts the new row: at the first row ordered
/// after it, or at the end.
proof fn lemma_insert_branch(rows: Seq<BranchCoverage>, bc: BranchCoverage, j: int)
    requires
        bc.line_number >= 1,
        0 <= j <= rows.len(),
        forall|k: int|
            0 <= k < j ==> !((#[trigger] rows[k]).line_number > bc.line_number || (
            rows[k].line_number == bc.line_number && rows[k].branch_index > bc.branch_index)),
    ensures
        j < rows.len() && (rows[j].line_number > bc.line_number || (rows[j].line_number
            == bc.line_number && rows[j].branch_index > bc.branch_index))
            ==> spec_insert_branch(rows, bc) =~= rows.subrange(0, j) + seq![bc] + rows.subrange(
            j,
            rows.len() as int,
        ),
        j == rows.len() ==> spec_insert_branch(rows, bc) =~= rows.push(bc),
    decreases rows.len(),
{
    if rows.len() == 0 {
    } else if rows[0].line_number > bc.line_number || (rows[0].line_number == bc.line_number
        && rows[0].branch_index > bc.branch_index) {
        assert(j == 0);
        assert(rows.subrange(0, 0) =~= Seq::<BranchCoverage>::empty());
        assert(rows.subrange(0, rows.len() as int) =~= rows);
    } else {
        if j > 0 {
            let rest = rows.drop_first();
            assert(forall|k: int| 0 <= k < rest.len() ==> #[trigger] rest[k] == rows[k + 1]);
            lemma_insert_branch(rest, bc, j - 1);
            if j < rows.len() {
                assert(seq![rows[0]] + (rest.subrange(0, j - 1) + seq![bc] + rest.subrange(
                    j - 1,
                    rest.len() as int,
                )) =~= rows.subrange(0, j) + seq![bc] + rows.subrange(j, rows.len() as int));
            } else {
                assert(seq![rows[0]] + rest.push(bc) =~= rows.push(bc));
            }
        }
    }
}

/// A branch row inserted in `(line, index)` order, after equals.
fn insert_branch_sorted(rows: &mut Vec<BranchCoverage>, bc: BranchCoverage)
    ensures
        final(rows)@ == spec_insert_branch(old(rows)@, bc),
{
    if bc.line_number == 0 {
        return ;
    }
    let ghost orig = rows@;
    let n = rows.len();
    let mut j: usize = 0;
    while j < n
        invariant
            bc.line_number >= 1,
            n == rows@.len(),
            rows@ == orig,
            orig == old(rows)@,
            0 <= j <= n,
            forall|k: int|
                0 <= k < j ==> !((#[trigger] orig[k]).line_number > bc.line_number || (
                orig[k].line_number == bc.line_number && orig[k].branch_index > bc.branch_index)),
        decreases n - j,
    {
        if rows[j].line_number > bc.line_number || (rows[j].line_number == bc.line_number
            && rows[j].branch_index > bc.branch_index) {
            rows.insert(j, bc);
            proof {
                lemma_insert_branch(orig, bc, j as int);
                assert(rows@ =~= orig.subrange(0, j as int) + seq![bc] + orig.subrange(
                    j as int,
                    orig.len() as int,
                ));
            }
            return ;
        }
        j += 1;
    }
    rows.push(bc);
    proof {
        lemma_insert_branch(orig, bc, n as int);
    }
}

/// Where `spec_insert_function` puts the new row: at the first row whose
/// key orders after its key, or at the end.
proof fn lemma_insert_function(rows: Seq<FunctionCoverageView>, fc: FunctionCoverageView, j: int)
    requires
        0 <= j <= rows.len(),
        forall|k: int|
            0 <= k < j ==> !(spec_fn_sort_key((#[trigger] rows[k]).start_line) > spec_fn_sort_key(
                fc.start_line,
            )),
    ensures
        j < rows.len() && spec_fn_sort_key(rows[j].start_line) > spec_fn_sort_key(fc.start_line)
            ==> spec_insert_function(rows, fc) =~= rows.subrange(0, j) + seq![fc] + rows.subrange(
            j,
            rows.len() as int,
        ),
        j == rows.len() ==> spec_insert_function(rows, fc) =~= rows.push(fc),
    decreases rows.len(),
{
    if rows.len() == 0 {
    } else if spec_fn_sort_key(rows[0].start_line) > spec_fn_sort_key(fc.start_line) {
        assert(j == 0);
        assert(rows.subrange(0, 0) =~= Seq::<FunctionCoverageView>::empty());
        assert(rows.subrange(0, rows.len() as int) =~= rows);
    } else {
        if j > 0 {
            let rest = rows.drop_first();
            assert(forall|k: int| 0 <= k < rest.len() ==> #[trigger] rest[k] == rows[k + 1]);
            lemma_insert_function(rest, fc, j - 1);
            if j < rows.len() {
                assert(seq![rows[0]] + (rest.subrange(0, j - 1) + seq![fc] + rest.subrange(
                    j - 1,
                    rest.len() as int,
                )) =~= rows.subrange(0, j) + seq![fc] + rows.subrange(j, rows.len() as int));
            } else {
                assert(seq![rows[0]] + rest.push(fc) =~= rows.push(fc));
            }
        }
    }
}

/// A function row inserted in start-line order (rows without one first),
/// after equals.
fn insert_function_sorted(rows: &mut Vec<FunctionCoverage>, fc: FunctionCoverage)
    ensures
        final(rows).deep_view() == spec_insert_function(old(rows).deep_view(), fc@),
{
    let ghost orig = rows@;
    let ghost origd = rows.deep_view();
    proof {
        assert(forall|k: int| 0 <= k < orig.len() ==> #[trigger] origd[k] == orig[k]@);
    }
    let key: u64 = match fc.start_line {
        Some(v) => v as u64 + 1,
        None => 0,
    };
    let n = rows.len();
    let mut j: usize = 0;
    while j < n
        invariant
            n == rows@.len(),
            rows@ == orig,
            origd == old(rows).deep_view(),
            origd.len() == orig.len(),
            forall|k: int| 0 <= k < orig.len() ==> #[trigger] origd[k] == orig[k]@,
            key == spec_fn_sort_key(fc@.start_line),
            0 <= j <= n,
            forall|k: int|
                0 <= k < j ==> !(spec_fn_sort_key((#[trigger] origd[k]).start_line)
                    > spec_fn_sort_key(fc@.start_line)),
        decreases n - j,
    {
        let rk: u64 = match rows[j].start_line {
            Some(v) => v as u64 + 1,
            None => 0,
        };
        proof {
            assert(rk == spec_fn_sort_key(origd[j as int].start_line));
        }
        if rk > key {
            rows.insert(j, fc);
            proof {
                lemma_insert_function(origd, fc@, j as int);
                assert(rows.deep_view() =~= origd.subrange(0, j as int) + seq![fc@]
                    + origd.subrange(j as int, origd.len() as int)) by {
                    assert(forall|k: int|
                        0 <= k < rows@.len() ==> #[trigger] rows.deep_view()[k] == rows@[k]@);
                }
            }
            return ;
        }
        j += 1;
    }
    rows.push(fc);
    proof {
        lemma_insert_function(origd, fc@, n as int);
        assert(rows.deep_view() =~= origd.push(fc@)) by {
            assert(forall|k: int|
                0 <= k < rows@.len() ==> #[trigger] rows.deep_view()[k] == rows@[k]@);
        }
    }
}

/// Content-based detection over raw bytes: a JSON object head that
/// mentions both `statementMap` and `fnMap`.
pub open spec fn spec_looks_like_istanbul_bytes(head: Seq<u8>) -> bool {
    spec_starts_with(spec_trim_start(head), seq![123u8]) && spec_contains_seq(
        spec_trim_start(head),
        spec_stmt_map_marker(),
    ) && spec_contains_seq(spec_trim_start(head), spec_fn_map_marker())
}

/// Content-based detection over raw bytes.
pub fn looks_like_istanbul_bytes(head: &[u8]) -> (r: bool)
    ensures
        r == spec_looks_like_istanbul_bytes(head@),
{
    let trimmed = crate::parsers::gocover::skip_ws_pub(head);
    let brace: Vec<u8> = vec![123];
    proof {
        assert(brace@ =~= seq![123u8]);
    }
    if !starts_with(trimmed, brace.as_slice()) {
        return false;
    }
    let stmt_marker: Vec<u8> = vec![
        34, 115, 116, 97, 116, 101, 109, 101, 110, 116, 77, 97, 112, 34,
    ];
    let fn_marker: Vec<u8> = vec![34, 102, 110, 77, 97, 112, 34];
    proof {
        assert(stmt_marker@ =~= spec_stmt_map_marker());
        assert(fn_marker@ =~= spec_fn_map_marker());
    }
    contains_seq(trimmed, stmt_marker.as_slice()) && contains_seq(trimmed, fn_marker.as_slice())
}

} // verus!
