//! Parser for the LCOV `.info` format: line-prefixed records, one block
//! per source file ended by `end_of_record`.
//!
//! Records honored: `SF:` opens a file (resetting per-file state),
//! `FN:line,name` remembers a function's start line, `FNDA:count,name`
//! emits a function row, `DA:line,count[,checksum]` emits a line row
//! (dropped when the count is negative or unreadable), and
//! `BRDA:line,block,branch,taken` emits a branch arm with a running
//! 0-based index per line, `-` meaning not taken. Summary records
//! (`LF`, `LH`, `FNF`, `FNH`, `BRF`, `BRH`, `TN`) are ignored: totals are
//! recomputed. Line rows leave each record sorted by line number. A
//! file without a final `end_of_record` is flushed at the
//! end of input. A file path or function name that is not UTF-8 is
//! refused.

use vstd::prelude::*;
use vstd::slice::{slice_index_get, slice_subrange};
use vstd::utf8::{decode_utf8, valid_utf8};
use crate::error::CovrsError;
use crate::model::{
    BranchCoverage, CoverageData, FileCoverage, FileCoverageView, FunctionCoverage,
    FunctionCoverageView, LineCoverage,
};
use crate::text::{
    spec_split_lines, spec_trim, spec_split_once, spec_find, spec_parse_uint, spec_parse_i64,
    split_lines, trim, split_once, find_byte, lemma_spec_find, parse_u32, parse_u64, parse_i64,
    decode_bytes, bytes_eq, starts_with,
};

verus! {

/// The parser state after some prefix of the input's lines.
pub struct LcovState {
    /// Completed file records, in `end_of_record` order.
    pub files: Seq<FileCoverageView>,
    /// The file opened by the last `SF:`, if any.
    pub cur: Option<FileCoverageView>,
    /// Per line, the next branch index of the current file.
    pub branch_counts: Seq<(u32, u32)>,
    /// Function start lines remembered from `FN:` records, keyed by the
    /// raw name bytes.
    pub fn_defs: Seq<(Seq<u8>, u32)>,
}

/// The first value stored under `key`, if any.
pub open spec fn assoc_bytes(s: Seq<(Seq<u8>, u32)>, key: Seq<u8>) -> Option<u32>
    decreases s.len(),
{
    if s.len() == 0 {
        None
    } else if s[0].0 == key {
        Some(s[0].1)
    } else {
        assoc_bytes(s.drop_first(), key)
    }
}

/// The first value stored under `key`, if any.
pub open spec fn assoc_u32(s: Seq<(u32, u32)>, key: u32) -> Option<u32>
    decreases s.len(),
{
    if s.len() == 0 {
        None
    } else if s[0].0 == key {
        Some(s[0].1)
    } else {
        assoc_u32(s.drop_first(), key)
    }
}

/// The first entry with `key` replaced by `val`, or a new entry appended.
pub open spec fn assoc_bytes_set(s: Seq<(Seq<u8>, u32)>, key: Seq<u8>, val: u32) -> Seq<
    (Seq<u8>, u32),
>
    decreases s.len(),
{
    if s.len() == 0 {
        seq![(key, val)]
    } else if s[0].0 == key {
        seq![(key, val)] + s.drop_first()
    } else {
        seq![s[0]] + assoc_bytes_set(s.drop_first(), key, val)
    }
}

/// The first entry with `key` replaced by `val`, or a new entry appended.
pub open spec fn assoc_u32_set(s: Seq<(u32, u32)>, key: u32, val: u32) -> Seq<(u32, u32)>
    decreases s.len(),
{
    if s.len() == 0 {
        seq![(key, val)]
    } else if s[0].0 == key {
        seq![(key, val)] + s.drop_first()
    } else {
        seq![s[0]] + assoc_u32_set(s.drop_first(), key, val)
    }
}

/// A fresh file record for `path`.
pub open spec fn empty_file(path: Seq<char>) -> FileCoverageView {
    FileCoverageView {
        path,
        lines: Seq::empty(),
        branches: Seq::empty(),
        functions: Seq::empty(),
    }
}

/// The bytes of `end_of_record`.
pub open spec fn spec_end_of_record() -> Seq<u8> {
    seq![101u8, 110u8, 100u8, 95u8, 111u8, 102u8, 95u8, 114u8, 101u8, 99u8, 111u8, 114u8, 100u8]
}

/// The second field of `DA:`/`BRDA:` values: up to the next comma, or the
/// whole rest.
pub open spec fn spec_field(s: Seq<u8>, sep: u8) -> Seq<u8> {
    match spec_find(s, sep) {
        Some(i) => s.take(i),
        None => s,
    }
}

/// A line row inserted in line order, after equals.
pub open spec fn spec_insert_line_ord(rows: Seq<LineCoverage>, lc: LineCoverage) -> Seq<
    LineCoverage,
>
    decreases rows.len(),
{
    if rows.len() == 0 {
        seq![lc]
    } else if rows[0].line_number > lc.line_number {
        seq![lc] + rows
    } else {
        seq![rows[0]] + spec_insert_line_ord(rows.drop_first(), lc)
    }
}

/// The rows sorted ascending by line number, equals kept in order.
pub open spec fn spec_sort_lines(rows: Seq<LineCoverage>) -> Seq<LineCoverage>
    decreases rows.len(),
{
    if rows.len() == 0 {
        Seq::empty()
    } else {
        spec_insert_line_ord(spec_sort_lines(rows.drop_last()), rows.last())
    }
}

/// A record flushed: its line rows leave sorted by line number.
pub open spec fn spec_flush_file(f: FileCoverageView) -> FileCoverageView {
    FileCoverageView { lines: spec_sort_lines(f.lines), ..f }
}

/// One trimmed input line applied to the parser state; `None` is a parse
/// error (a path or name that is not UTF-8).
pub open spec fn spec_lcov_step(st: LcovState, raw: Seq<u8>) -> Option<LcovState> {
    let line = spec_trim(raw);
    if line.len() == 0 {
        Some(st)
    } else if line == spec_end_of_record() {
        Some(
            LcovState {
                files: match st.cur {
                    Some(f) => st.files.push(spec_flush_file(f)),
                    None => st.files,
                },
                cur: None,
                branch_counts: Seq::empty(),
                fn_defs: Seq::empty(),
            },
        )
    } else {
        match spec_split_once(line, 58) {
            None => Some(st),
            Some((tag, value)) => spec_lcov_tag(st, tag, value),
        }
    }
}

/// One `TAG:value` record applied to the parser state.
pub open spec fn spec_lcov_tag(st: LcovState, tag: Seq<u8>, value: Seq<u8>) -> Option<LcovState> {
    if tag == seq![83u8, 70u8] {
        // SF: open a file, resetting per-file state.
        if valid_utf8(value) {
            Some(
                LcovState {
                    cur: Some(empty_file(decode_utf8(value))),
                    branch_counts: Seq::empty(),
                    fn_defs: Seq::empty(),
                    ..st
                },
            )
        } else {
            None
        }
    } else if tag == seq![70u8, 78u8] {
        // FN:line,name — remember the start line.
        match spec_split_once(value, 44) {
            None => Some(st),
            Some((line_str, name)) => match spec_parse_uint(line_str, u32::MAX as nat) {
                Some(start) => Some(
                    LcovState { fn_defs: assoc_bytes_set(st.fn_defs, name, start as u32), ..st },
                ),
                None => Some(st),
            },
        }
    } else if tag == seq![70u8, 78u8, 68u8, 65u8] {
        // FNDA:count,name — emit a function row.
        match st.cur {
            None => Some(st),
            Some(f) => match spec_split_once(value, 44) {
                None => Some(st),
                Some((count_str, name)) => {
                    if valid_utf8(name) {
                        let hit = match spec_parse_uint(count_str, u64::MAX as nat) {
                            Some(c) => c as u64,
                            None => 0u64,
                        };
                        let start = assoc_bytes(st.fn_defs, name);
                        Some(
                            LcovState {
                                cur: Some(
                                    FileCoverageView {
                                        functions: f.functions.push(
                                            FunctionCoverageView {
                                                name: decode_utf8(name),
                                                start_line: start,
                                                end_line: None,
                                                hit_count: hit,
                                            },
                                        ),
                                        ..f
                                    },
                                ),
                                ..st
                            },
                        )
                    } else {
                        None
                    }
                },
            },
        }
    } else if tag == seq![68u8, 65u8] {
        // DA:line,count[,checksum] — emit a line row unless the count is
        // negative or unreadable.
        match st.cur {
            None => Some(st),
            Some(f) => match spec_split_once(value, 44) {
                None => Some(st),
                Some((line_str, rest)) => match spec_parse_uint(line_str, u32::MAX as nat) {
                    None => Some(st),
                    Some(ln) => if ln == 0 {
                        Some(st)
                    } else {
                        let count_str = spec_field(rest, 44);
                        match spec_parse_i64(count_str) {
                            Some(c) => if c >= 0 {
                                Some(
                                    LcovState {
                                        cur: Some(
                                            FileCoverageView {
                                                lines: f.lines.push(
                                                    LineCoverage {
                                                        line_number: ln as u32,
                                                        hit_count: c as u64,
                                                    },
                                                ),
                                                ..f
                                            },
                                        ),
                                        ..st
                                    },
                                )
                            } else {
                                Some(st)
                            },
                            None => Some(st),
                        }
                    },
                },
            },
        }
    } else if tag == seq![66u8, 82u8, 68u8, 65u8] {
        // BRDA:line,block,branch,taken — emit a branch arm with the
        // running per-line index; `-` means not taken.
        match st.cur {
            None => Some(st),
            Some(f) => match spec_split_once(value, 44) {
                None => Some(st),
                Some((p0, rest1)) => match spec_split_once(rest1, 44) {
                    None => Some(st),
                    Some((_, rest2)) => match spec_split_once(rest2, 44) {
                        None => Some(st),
                        Some((_, taken)) => match spec_parse_uint(p0, u32::MAX as nat) {
                            None => Some(st),
                            Some(ln) => if ln == 0 {
                                Some(st)
                            } else {
                                let hit = if taken == seq![45u8] {
                                    0u64
                                } else {
                                    match spec_parse_uint(taken, u64::MAX as nat) {
                                        Some(c) => c as u64,
                                        None => 0u64,
                                    }
                                };
                                let idx = match assoc_u32(st.branch_counts, ln as u32) {
                                    Some(i) => i,
                                    None => 0u32,
                                };
                                let next = if idx == u32::MAX {
                                    idx
                                } else {
                                    (idx + 1) as u32
                                };
                                Some(
                                    LcovState {
                                        cur: Some(
                                            FileCoverageView {
                                                branches: f.branches.push(
                                                    BranchCoverage {
                                                        line_number: ln as u32,
                                                        branch_index: idx,
                                                        hit_count: hit,
                                                    },
                                                ),
                                                ..f
                                            },
                                        ),
                                        branch_counts: assoc_u32_set(
                                            st.branch_counts,
                                            ln as u32,
                                            next,
                                        ),
                                        ..st
                                    },
                                )
                            },
                        },
                    },
                },
            },
        }
    } else {
        // TN and summary records, and anything unknown, are skipped.
        Some(st)
    }
}

/// The input's lines applied in order; errors stop the run.
pub open spec fn spec_lcov_run(st: LcovState, lines: Seq<Seq<u8>>) -> Option<LcovState>
    decreases lines.len(),
{
    if lines.len() == 0 {
        Some(st)
    } else {
        match spec_lcov_step(st, lines[0]) {
            None => None,
            Some(st2) => spec_lcov_run(st2, lines.drop_first()),
        }
    }
}

/// The file records an LCOV input parses to, with the unterminated final
/// file flushed, or `None` when a path or name is not UTF-8.
pub open spec fn spec_parse_lcov(bytes: Seq<u8>) -> Option<Seq<FileCoverageView>> {
    let init = LcovState {
        files: Seq::empty(),
        cur: None,
        branch_counts: Seq::empty(),
        fn_defs: Seq::empty(),
    };
    match spec_lcov_run(init, spec_split_lines(bytes)) {
        None => None,
        Some(st) => Some(
            match st.cur {
                Some(f) => st.files.push(spec_flush_file(f)),
                None => st.files,
            },
        ),
    }
}


// ---------------------------------------------------------------------------
// Executable parser
// ---------------------------------------------------------------------------

/// The mathematical image of the remembered function start lines.
pub open spec fn view_fn_defs(v: &Vec<(Vec<u8>, u32)>) -> Seq<(Seq<u8>, u32)> {
    Seq::new(v@.len(), |i: int| (v@[i].0@, v@[i].1))
}

/// The mathematical image of the open file.
pub open spec fn view_cur(cur: &Option<FileCoverage>) -> Option<FileCoverageView> {
    match cur {
        Some(f) => Some(f@),
        None => None,
    }
}

/// The first value stored under `key`, if any.
pub fn assoc_u32_lookup(s: &Vec<(u32, u32)>, key: u32) -> (r: Option<u32>)
    ensures
        r == assoc_u32(s@, key),
{
    let n = s.len();
    let mut i: usize = 0;
    proof {
        assert(s@.skip(0) =~= s@);
    }
    while i < n
        invariant
            n == s@.len(),
            0 <= i <= n,
            assoc_u32(s@, key) == assoc_u32(s@.skip(i as int), key),
        decreases n - i,
    {
        proof {
            assert(s@.skip(i as int)[0] == s@[i as int]);
            assert(s@.skip(i as int).drop_first() =~= s@.skip(i + 1));
        }
        if s[i].0 == key {
            return Some(s[i].1);
        }
        i += 1;
    }
    proof {
        assert(s@.skip(n as int) =~= Seq::<(u32, u32)>::empty());
    }
    None
}

proof fn lemma_assoc_u32_set(s: Seq<(u32, u32)>, key: u32, val: u32, j: int)
    requires
        0 <= j <= s.len(),
        forall|k: int| 0 <= k < j ==> (#[trigger] s[k]).0 != key,
        j < s.len() ==> s[j].0 == key,
    ensures
        j < s.len() ==> assoc_u32_set(s, key, val) =~= s.update(j, (key, val)),
        j == s.len() ==> assoc_u32_set(s, key, val) =~= s.push((key, val)),
    decreases s.len(),
{
    if s.len() == 0 {
    } else if s[0].0 == key {
        assert(j == 0);
        assert(seq![(key, val)] + s.drop_first() =~= s.update(0, (key, val)));
    } else {
        let rest = s.drop_first();
        assert(forall|k: int| 0 <= k < rest.len() ==> #[trigger] rest[k] == s[k + 1]);
        assert(j > 0);
        lemma_assoc_u32_set(rest, key, val, j - 1);
        if j < s.len() {
            assert(seq![s[0]] + rest.update(j - 1, (key, val)) =~= s.update(j, (key, val)));
        } else {
            assert(seq![s[0]] + rest.push((key, val)) =~= s.push((key, val)));
        }
    }
}

pub fn assoc_u32_set_pub(s: &mut Vec<(u32, u32)>, key: u32, val: u32)
    ensures
        final(s)@ == assoc_u32_set(old(s)@, key, val),
{
    let ghost orig = s@;
    let n = s.len();
    let mut j: usize = 0;
    while j < n
        invariant
            n == s@.len(),
            s@ == orig,
            orig == old(s)@,
            0 <= j <= n,
            forall|k: int| 0 <= k < j ==> (#[trigger] orig[k]).0 != key,
        decreases n - j,
    {
        if s[j].0 == key {
            s.remove(j);
            s.insert(j, (key, val));
            proof {
                lemma_assoc_u32_set(orig, key, val, j as int);
                assert(s@ =~= orig.update(j as int, (key, val)));
            }
            return ;
        }
        j += 1;
    }
    s.push((key, val));
    proof {
        lemma_assoc_u32_set(orig, key, val, n as int);
    }
}

/// The first value stored under `key`, if any.
fn assoc_bytes_exec(s: &Vec<(Vec<u8>, u32)>, key: &[u8]) -> (r: Option<u32>)
    ensures
        r == assoc_bytes(view_fn_defs(s), key@),
{
    let ghost sv = view_fn_defs(s);
    let n = s.len();
    let mut i: usize = 0;
    proof {
        assert(sv.skip(0) =~= sv);
    }
    while i < n
        invariant
            n == s@.len(),
            sv == view_fn_defs(s),
            sv.len() == n,
            0 <= i <= n,
            assoc_bytes(sv, key@) == assoc_bytes(sv.skip(i as int), key@),
        decreases n - i,
    {
        proof {
            assert(sv.skip(i as int)[0] == sv[i as int]);
            assert(sv.skip(i as int).drop_first() =~= sv.skip(i + 1));
            assert(sv[i as int] == (s@[i as int].0@, s@[i as int].1));
        }
        if bytes_eq(s[i].0.as_slice(), key) {
            return Some(s[i].1);
        }
        i += 1;
    }
    proof {
        assert(sv.skip(n as int) =~= Seq::<(Seq<u8>, u32)>::empty());
    }
    None
}

proof fn lemma_assoc_bytes_set(s: Seq<(Seq<u8>, u32)>, key: Seq<u8>, val: u32, j: int)
    requires
        0 <= j <= s.len(),
        forall|k: int| 0 <= k < j ==> (#[trigger] s[k]).0 != key,
        j < s.len() ==> s[j].0 == key,
    ensures
        j < s.len() ==> assoc_bytes_set(s, key, val) =~= s.update(j, (key, val)),
        j == s.len() ==> assoc_bytes_set(s, key, val) =~= s.push((key, val)),
    decreases s.len(),
{
    if s.len() == 0 {
    } else if s[0].0 == key {
        assert(j == 0);
        assert(seq![(key, val)] + s.drop_first() =~= s.update(0, (key, val)));
    } else {
        let rest = s.drop_first();
        assert(forall|k: int| 0 <= k < rest.len() ==> #[trigger] rest[k] == s[k + 1]);
        assert(j > 0);
        lemma_assoc_bytes_set(rest, key, val, j - 1);
        if j < s.len() {
            assert(seq![s[0]] + rest.update(j - 1, (key, val)) =~= s.update(j, (key, val)));
        } else {
            assert(seq![s[0]] + rest.push((key, val)) =~= s.push((key, val)));
        }
    }
}

fn assoc_bytes_set_exec(s: &mut Vec<(Vec<u8>, u32)>, key: &[u8], val: u32)
    ensures
        view_fn_defs(final(s)) == assoc_bytes_set(view_fn_defs(old(s)), key@, val),
{
    let ghost orig = view_fn_defs(s);
    let n = s.len();
    let mut j: usize = 0;
    while j < n
        invariant
            n == s@.len(),
            view_fn_defs(s) == orig,
            orig == view_fn_defs(old(s)),
            orig.len() == n,
            0 <= j <= n,
            forall|k: int| 0 <= k < j ==> (#[trigger] orig[k]).0 != key@,
        decreases n - j,
    {
        proof {
            assert(orig[j as int] == (s@[j as int].0@, s@[j as int].1));
        }
        if bytes_eq(s[j].0.as_slice(), key) {
            s.remove(j);
            s.insert(j, (slice_to_vec_u8(key), val));
            proof {
                lemma_assoc_bytes_set(orig, key@, val, j as int);
                assert(view_fn_defs(s) =~= orig.update(j as int, (key@, val)));
            }
            return ;
        }
        j += 1;
    }
    s.push((slice_to_vec_u8(key), val));
    proof {
        lemma_assoc_bytes_set(orig, key@, val, n as int);
        assert(view_fn_defs(s) =~= orig.push((key@, val)));
    }
}

/// A copy of the byte slice.
fn slice_to_vec_u8(s: &[u8]) -> (r: Vec<u8>)
    ensures
        r@ == s@,
{
    vstd::slice::slice_to_vec(s)
}

/// Parse LCOV format coverage data from raw bytes.
#[verifier::rlimit(100)]

/// Whether every record seen so far, open or flushed, keeps its rows on
/// line 1 or later.
pub open spec fn lcov_state_positive(st: LcovState) -> bool {
    (forall|k: int|
        0 <= k < st.files.len() ==> crate::model::rows_positive(#[trigger] st.files[k])) && (
    match st.cur {
        Some(f) => crate::model::rows_positive(f),
        None => true,
    })
}

/// An in-order insertion keeps every row on line 1 or later.
proof fn lemma_insert_ord_pos(rows: Seq<LineCoverage>, lc: LineCoverage)
    requires
        forall|j: int| 0 <= j < rows.len() ==> (#[trigger] rows[j]).line_number >= 1,
        lc.line_number >= 1,
    ensures
        forall|j: int|
            0 <= j < spec_insert_line_ord(rows, lc).len() ==> (#[trigger] spec_insert_line_ord(
                rows,
                lc,
            )[j]).line_number >= 1,
    decreases rows.len(),
{
    let out = spec_insert_line_ord(rows, lc);
    if rows.len() == 0 {
        assert(out =~= seq![lc]);
    } else if rows[0].line_number > lc.line_number {
        assert(out =~= seq![lc] + rows);
        assert(forall|j: int| 1 <= j < out.len() ==> #[trigger] out[j] == rows[j - 1]);
    } else {
        let rest = rows.drop_first();
        assert(forall|k: int| 0 <= k < rest.len() ==> #[trigger] rest[k] == rows[k + 1]);
        lemma_insert_ord_pos(rest, lc);
        let out2 = spec_insert_line_ord(rest, lc);
        assert(out =~= seq![rows[0]] + out2);
        assert(forall|j: int| 1 <= j < out.len() ==> #[trigger] out[j] == out2[j - 1]);
    }
}

/// Sorting keeps every row on line 1 or later.
proof fn lemma_sort_lines_pos(rows: Seq<LineCoverage>)
    requires
        forall|j: int| 0 <= j < rows.len() ==> (#[trigger] rows[j]).line_number >= 1,
    ensures
        forall|j: int|
            0 <= j < spec_sort_lines(rows).len() ==> (#[trigger] spec_sort_lines(
                rows,
            )[j]).line_number >= 1,
    decreases rows.len(),
{
    if rows.len() == 0 {
    } else {
        let rest = rows.drop_last();
        assert(forall|k: int| 0 <= k < rest.len() ==> #[trigger] rest[k] == rows[k]);
        lemma_sort_lines_pos(rest);
        assert(rows.last().line_number >= 1);
        lemma_insert_ord_pos(spec_sort_lines(rest), rows.last());
    }
}

/// One step keeps every record's rows on line 1 or later.
#[verifier::rlimit(100)]
proof fn lemma_lcov_step_pos(st: LcovState, raw: Seq<u8>)
    requires
        lcov_state_positive(st),
    ensures
        spec_lcov_step(st, raw) matches Some(st2) ==> lcov_state_positive(st2),
{
    match spec_lcov_step(st, raw) {
        None => {},
        Some(st2) => {
            let line = spec_trim(raw);
            if line.len() == 0 {
            } else if line == spec_end_of_record() {
                match st.cur {
                    Some(f) => {
                        lemma_sort_lines_pos(f.lines);
                        assert(crate::model::rows_positive(spec_flush_file(f)));
                        assert(forall|k: int|
                            0 <= k < st.files.len() ==> #[trigger] st2.files[k] == st.files[k]);
                        assert(st2.files[st.files.len() as int] == spec_flush_file(f));
                        assert forall|k: int|
                            0 <= k < st2.files.len() implies crate::model::rows_positive(
                            #[trigger] st2.files[k],
                        ) by {
                            if k < st.files.len() {
                                assert(st2.files[k] == st.files[k]);
                            }
                        }
                    },
                    None => {},
                }
            } else {
                match spec_split_once(line, 58) {
                    None => {},
                    Some((tag, value)) => {
                        assert(lcov_state_positive(st2));
                    },
                }
            }
        },
    }
}

/// The fold keeps every record's rows on line 1 or later.
proof fn lemma_lcov_run_pos(st: LcovState, lines: Seq<Seq<u8>>)
    requires
        lcov_state_positive(st),
    ensures
        spec_lcov_run(st, lines) matches Some(st2) ==> lcov_state_positive(st2),
    decreases lines.len(),
{
    if lines.len() == 0 {
    } else {
        lemma_lcov_step_pos(st, lines[0]);
        match spec_lcov_step(st, lines[0]) {
            None => {},
            Some(st2) => {
                lemma_lcov_run_pos(st2, lines.drop_first());
            },
        }
    }
}

/// Law: every line and branch row a parse emits sits on line 1 or later.
pub proof fn lemma_lcov_rows_positive(bytes: Seq<u8>)
    ensures
        spec_parse_lcov(bytes) matches Some(files) ==> forall|k: int|
            0 <= k < files.len() ==> crate::model::rows_positive(#[trigger] files[k]),
{
    let init = LcovState {
        files: Seq::empty(),
        cur: None,
        branch_counts: Seq::empty(),
        fn_defs: Seq::empty(),
    };
    assert(lcov_state_positive(init));
    lemma_lcov_run_pos(init, spec_split_lines(bytes));
    match spec_lcov_run(init, spec_split_lines(bytes)) {
        None => {},
        Some(st) => {
            match st.cur {
                Some(f) => {
                    lemma_sort_lines_pos(f.lines);
                    let files = st.files.push(spec_flush_file(f));
                    assert forall|k: int|
                        0 <= k < files.len() implies crate::model::rows_positive(
                        #[trigger] files[k],
                    ) by {
                        if k < st.files.len() {
                            assert(files[k] == st.files[k]);
                        } else {
                            assert(files[k] == spec_flush_file(f));
                        }
                    }
                },
                None => {},
            }
        },
    }
}

/// Where `spec_insert_line_ord` puts the new row.
proof fn lemma_insert_line_ord(rows: Seq<LineCoverage>, lc: LineCoverage, j: int)
    requires
        0 <= j <= rows.len(),
        forall|k: int| 0 <= k < j ==> !((#[trigger] rows[k]).line_number > lc.line_number),
    ensures
        j < rows.len() && rows[j].line_number > lc.line_number ==> spec_insert_line_ord(rows, lc)
            =~= rows.subrange(0, j) + seq![lc] + rows.subrange(j, rows.len() as int),
        j == rows.len() ==> spec_insert_line_ord(rows, lc) =~= rows.push(lc),
    decreases rows.len(),
{
    if rows.len() == 0 {
    } else if rows[0].line_number > lc.line_number {
        assert(j == 0);
        assert(rows.subrange(0, 0) =~= Seq::<LineCoverage>::empty());
        assert(rows.subrange(0, rows.len() as int) =~= rows);
    } else {
        if j > 0 {
            let rest = rows.drop_first();
            assert(forall|k: int| 0 <= k < rest.len() ==> #[trigger] rest[k] == rows[k + 1]);
            lemma_insert_line_ord(rest, lc, j - 1);
            if j < rows.len() {
                assert(seq![rows[0]] + (rest.subrange(0, j - 1) + seq![lc] + rest.subrange(
                    j - 1,
                    rest.len() as int,
                )) =~= rows.subrange(0, j) + seq![lc] + rows.subrange(j, rows.len() as int));
            } else {
                assert(seq![rows[0]] + rest.push(lc) =~= rows.push(lc));
            }
        }
    }
}

/// A line row inserted in line order, after equals.
fn insert_line_ord_exec(rows: &mut Vec<LineCoverage>, lc: LineCoverage)
    ensures
        final(rows)@ == spec_insert_line_ord(old(rows)@, lc),
{
    let ghost orig = rows@;
    let n = rows.len();
    let mut j: usize = 0;
    while j < n
        invariant
            n == rows@.len(),
            rows@ == orig,
            orig == old(rows)@,
            0 <= j <= n,
            forall|k: int| 0 <= k < j ==> !((#[trigger] orig[k]).line_number > lc.line_number),
        decreases n - j,
    {
        if rows[j].line_number > lc.line_number {
            rows.insert(j, lc);
            proof {
                lemma_insert_line_ord(orig, lc, j as int);
                assert(rows@ =~= orig.subrange(0, j as int) + seq![lc] + orig.subrange(
                    j as int,
                    orig.len() as int,
                ));
            }
            return ;
        }
        j += 1;
    }
    rows.push(lc);
    proof {
        lemma_insert_line_ord(orig, lc, n as int);
    }
}

/// The rows sorted ascending by line number, equals kept in order.
fn sort_lines_exec(rows: &mut Vec<LineCoverage>)
    ensures
        final(rows)@ == spec_sort_lines(old(rows)@),
{
    let ghost orig = rows@;
    let mut sorted: Vec<LineCoverage> = Vec::new();
    let n = rows.len();
    let mut i: usize = 0;
    proof {
        assert(orig.take(0) =~= Seq::<LineCoverage>::empty());
        assert(sorted@ =~= spec_sort_lines(orig.take(0)));
    }
    while i < n
        invariant
            n == rows@.len(),
            rows@ == orig,
            0 <= i <= n,
            sorted@ == spec_sort_lines(orig.take(i as int)),
        decreases n - i,
    {
        proof {
            assert(orig.take(i + 1).drop_last() =~= orig.take(i as int));
            assert(orig.take(i + 1).last() == orig[i as int]);
        }
        insert_line_ord_exec(&mut sorted, rows[i]);
        i += 1;
    }
    proof {
        assert(orig.take(n as int) =~= orig);
    }
    *rows = sorted;
}

pub fn parse(input: &[u8]) -> (r: Result<CoverageData, CovrsError>)
    ensures
        match spec_parse_lcov(input@) {
            Some(files) => r matches Ok(d) && d@ == files,
            None => r matches Err(e) && e matches CovrsError::Parse(m) && m@ == (
            "Invalid UTF-8 in LCOV data")@,
        },
{
    let lines = split_lines(input);
    let ghost all = spec_split_lines(input@);
    let ghost init = LcovState {
        files: Seq::empty(),
        cur: None,
        branch_counts: Seq::empty(),
        fn_defs: Seq::empty(),
    };
    let mut files: Vec<FileCoverage> = Vec::new();
    let mut cur: Option<FileCoverage> = None;
    let mut branch_counts: Vec<(u32, u32)> = Vec::new();
    let mut fn_defs: Vec<(Vec<u8>, u32)> = Vec::new();
    let n = lines.len();
    let mut i: usize = 0;
    proof {
        assert(lines.deep_view() == all);
        assert(lines.deep_view().len() == lines@.len());
        assert(all.skip(0) =~= all);
        assert(files.deep_view() =~= Seq::<FileCoverageView>::empty());
        assert(view_fn_defs(&fn_defs) =~= Seq::<(Seq<u8>, u32)>::empty());
        assert(LcovState {
            files: files.deep_view(),
            cur: view_cur(&cur),
            branch_counts: branch_counts@,
            fn_defs: view_fn_defs(&fn_defs),
        } == init);
    }
    while i < n
        invariant
            n == lines@.len() == all.len(),
            lines.deep_view() == all,
            all == spec_split_lines(input@),
            init == (LcovState {
                files: Seq::<FileCoverageView>::empty(),
                cur: None::<FileCoverageView>,
                branch_counts: Seq::<(u32, u32)>::empty(),
                fn_defs: Seq::<(Seq<u8>, u32)>::empty(),
            }),
            0 <= i <= n,
            spec_lcov_run(init, all) == spec_lcov_run(
                LcovState {
                    files: files.deep_view(),
                    cur: view_cur(&cur),
                    branch_counts: branch_counts@,
                    fn_defs: view_fn_defs(&fn_defs),
                },
                all.skip(i as int),
            ),
        decreases n - i,
    {
        let ghost st = LcovState {
            files: files.deep_view(),
            cur: view_cur(&cur),
            branch_counts: branch_counts@,
            fn_defs: view_fn_defs(&fn_defs),
        };
        let raw: &Vec<u8> = &lines[i];
        proof {
            assert(raw@ == lines.deep_view()[i as int]);
            assert(all.skip(i as int)[0] == all[i as int]);
            assert(all.skip(i as int).drop_first() =~= all.skip(i + 1));
        }
        let line = trim(raw.as_slice());
        let eor: Vec<u8> = vec![101, 110, 100, 95, 111, 102, 95, 114, 101, 99, 111, 114, 100];
        proof {
            assert(eor@ =~= spec_end_of_record());
        }
        if line.len() == 0 {
            // Blank line.
        } else if bytes_eq(line, eor.as_slice()) {
            let done = cur;
            cur = None;
            match done {
                Some(mut f) => {
                    let ghost fsv = files.deep_view();
                    let ghost f0 = f@;
                    sort_lines_exec(&mut f.lines);
                    let ghost fv = f@;
                    proof {
                        assert(fv == spec_flush_file(f0));
                    }
                    files.push(f);
                    proof {
                        assert(files.deep_view() =~= fsv.push(fv)) by {
                            assert(forall|k: int|
                                0 <= k < fsv.len() ==> #[trigger] files.deep_view()[k] == fsv[k]);
                            assert(files.deep_view()[fsv.len() as int] == fv);
                        }
                    }
                },
                None => {},
            }
            branch_counts = Vec::new();
            fn_defs = Vec::new();
            proof {
                assert(view_fn_defs(&fn_defs) =~= Seq::<(Seq<u8>, u32)>::empty());
            }
        } else {
            match split_once(line, 58) {
                None => {},
                Some((tag, value)) => {
                    let sf: Vec<u8> = vec![83, 70];
                    let fnt: Vec<u8> = vec![70, 78];
                    let fnda: Vec<u8> = vec![70, 78, 68, 65];
                    let da: Vec<u8> = vec![68, 65];
                    let brda: Vec<u8> = vec![66, 82, 68, 65];
                    proof {
                        assert(sf@ =~= seq![83u8, 70u8]);
                        assert(fnt@ =~= seq![70u8, 78u8]);
                        assert(fnda@ =~= seq![70u8, 78u8, 68u8, 65u8]);
                        assert(da@ =~= seq![68u8, 65u8]);
                        assert(brda@ =~= seq![66u8, 82u8, 68u8, 65u8]);
                    }
                    if bytes_eq(tag, sf.as_slice()) {
                        match decode_bytes(value) {
                            Some(path) => {
                                cur = Some(FileCoverage::new(path));
                                branch_counts = Vec::new();
                                fn_defs = Vec::new();
                                proof {
                                    assert(view_fn_defs(&fn_defs) =~= Seq::<
                                        (Seq<u8>, u32),
                                    >::empty());
                                }
                            },
                            None => {
                                proof {
                                    assert(spec_lcov_step(st, all[i as int]) is None);
                                    assert(spec_lcov_run(st, all.skip(i as int)) is None);
                                    assert(spec_lcov_run(init, all) is None);
                                    assert(spec_parse_lcov(input@) is None);
                                }
                                return Err(
                                    CovrsError::Parse(("Invalid UTF-8 in LCOV data").to_owned()),
                                );
                            },
                        }
                    } else if bytes_eq(tag, fnt.as_slice()) {
                        match split_once(value, 44) {
                            None => {},
                            Some((line_str, name)) => {
                                match parse_u32(line_str) {
                                    Some(start) => {
                                        assoc_bytes_set_exec(&mut fn_defs, name, start);
                                    },
                                    None => {},
                                }
                            },
                        }
                    } else if bytes_eq(tag, fnda.as_slice()) {
                        if cur.is_some() {
                            match split_once(value, 44) {
                                None => {},
                                Some((count_str, name)) => {
                                    match decode_bytes(name) {
                                        Some(fname) => {
                                            let hit = match parse_u64(count_str) {
                                                Some(c) => c,
                                                None => 0,
                                            };
                                            let start = assoc_bytes_exec(&fn_defs, name);
                                            let ghost fname_v = fname@;
                                            cur = match cur {
                                                Some(mut f) => {
                                                    let ghost before = f.functions.deep_view();
                                                    f.functions.push(
                                                        FunctionCoverage {
                                                            name: fname,
                                                            start_line: start,
                                                            end_line: None,
                                                            hit_count: hit,
                                                        },
                                                    );
                                                    proof {
                                                        assert(f.functions.deep_view()
                                                            =~= before.push(
                                                            FunctionCoverageView {
                                                                name: fname_v,
                                                                start_line: start,
                                                                end_line: None,
                                                                hit_count: hit,
                                                            },
                                                        )) by {
                                                            assert(forall|k: int|
                                                                0 <= k < before.len()
                                                                    ==> #[trigger] f.functions.deep_view()[k]
                                                                    == before[k]);
                                                            assert(f.functions.deep_view()[before.len() as int]
                                                                == f.functions@[before.len() as int]@);
                                                        }
                                                    }
                                                    Some(f)
                                                },
                                                None => None,
                                            };
                                        },
                                        None => {
                                            proof {
                                                assert(spec_lcov_step(st, all[i as int]) is None);
                                                assert(spec_lcov_run(st, all.skip(i as int)) is None);
                                                assert(spec_lcov_run(init, all) is None);
                                                assert(spec_parse_lcov(input@) is None);
                                            }
                                            return Err(
                                                CovrsError::Parse(
                                                    ("Invalid UTF-8 in LCOV data").to_owned(),
                                                ),
                                            );
                                        },
                                    }
                                },
                            }
                        }
                    } else if bytes_eq(tag, da.as_slice()) {
                        if cur.is_some() {
                            match split_once(value, 44) {
                                None => {},
                                Some((line_str, rest)) => {
                                    match parse_u32(line_str) {
                                        None => {},
                                        Some(ln) => if ln >= 1 {
                                            let count_str: &[u8] = match find_byte(rest, 44) {
                                                Some(c) => {
                                                    proof {
                                                        lemma_spec_find(rest@, 44);
                                                    }
                                                    slice_subrange(rest, 0, c)
                                                },
                                                None => rest,
                                            };
                                            assert(count_str@ == spec_field(rest@, 44));
                                            match parse_i64(count_str) {
                                                Some(c) => {
                                                    if c >= 0 {
                                                        cur = match cur {
                                                            Some(mut f) => {
                                                                f.lines.push(
                                                                    LineCoverage {
                                                                        line_number: ln,
                                                                        hit_count: c as u64,
                                                                    },
                                                                );
                                                                Some(f)
                                                            },
                                                            None => None,
                                                        };
                                                    }
                                                },
                                                None => {},
                                            }
                                        },
                                    }
                                },
                            }
                        }
                    } else if bytes_eq(tag, brda.as_slice()) {
                        if cur.is_some() {
                            match split_once(value, 44) {
                                None => {},
                                Some((p0, rest1)) => {
                                    match split_once(rest1, 44) {
                                        None => {},
                                        Some((_, rest2)) => {
                                            match split_once(rest2, 44) {
                                                None => {},
                                                Some((_, taken)) => {
                                                    match parse_u32(p0) {
                                                        None => {},
                                                        Some(ln) => if ln >= 1 {
                                                            let dash: Vec<u8> = vec![45];
                                                            proof {
                                                                assert(dash@ =~= seq![45u8]);
                                                            }
                                                            let hit: u64 = if bytes_eq(
                                                                taken,
                                                                dash.as_slice(),
                                                            ) {
                                                                0
                                                            } else {
                                                                match parse_u64(taken) {
                                                                    Some(c) => c,
                                                                    None => 0,
                                                                }
                                                            };
                                                            let idx = match assoc_u32_lookup(
                                                                &branch_counts,
                                                                ln,
                                                            ) {
                                                                Some(v) => v,
                                                                None => 0,
                                                            };
                                                            let next = if idx == u32::MAX {
                                                                idx
                                                            } else {
                                                                idx + 1
                                                            };
                                                            cur = match cur {
                                                                Some(mut f) => {
                                                                    f.branches.push(
                                                                        BranchCoverage {
                                                                            line_number: ln,
                                                                            branch_index: idx,
                                                                            hit_count: hit,
                                                                        },
                                                                    );
                                                                    Some(f)
                                                                },
                                                                None => None,
                                                            };
                                                            assoc_u32_set_pub(
                                                                &mut branch_counts,
                                                                ln,
                                                                next,
                                                            );
                                                        },
                                                    }
                                                },
                                            }
                                        },
                                    }
                                },
                            }
                        }
                    } else {
                        // TN and summary records are ignored.
                    }
                },
            }
        }
        proof {
            let st2 = LcovState {
                files: files.deep_view(),
                cur: view_cur(&cur),
                branch_counts: branch_counts@,
                fn_defs: view_fn_defs(&fn_defs),
            };
            assert(Some(st2) == spec_lcov_step(st, all[i as int]));
        }
        i += 1;
    }
    proof {
        assert(all.skip(n as int) =~= Seq::<Seq<u8>>::empty());
    }
    let done = cur;
    match done {
        Some(mut f) => {
            let ghost fsv = files.deep_view();
            let ghost f0 = f@;
            sort_lines_exec(&mut f.lines);
            let ghost fv = f@;
            proof {
                assert(fv == spec_flush_file(f0));
            }
            files.push(f);
            proof {
                assert(files.deep_view() =~= fsv.push(fv)) by {
                    assert(forall|k: int|
                        0 <= k < fsv.len() ==> #[trigger] files.deep_view()[k] == fsv[k]);
                    assert(files.deep_view()[fsv.len() as int] == fv);
                }
            }
        },
        None => {},
    }
    Ok(CoverageData { files })
}

} // verus!
