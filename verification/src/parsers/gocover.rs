//! Parser for Go's `-coverprofile` format: after an optional `mode:`
//! header, each line is `<file>:<sLine>.<sCol>,<eLine>.<eCol> <stmts>
//! <count>`, a basic block of source lines with an execution count. The
//! block is anchored at the last `.go:` in the path, so paths may contain
//! colons. Blocks are grouped per file in first-seen order; a line touched
//! by several blocks gets the largest count, and every integer line of a
//! block's inclusive range is emitted.

use vstd::prelude::*;
use vstd::slice::{slice_index_get, slice_subrange};
use vstd::utf8::{decode_utf8, valid_utf8};
use crate::error::CovrsError;
use crate::model::{CoverageData, FileCoverage, FileCoverageView, FunctionCoverage, FunctionCoverageView, LineCoverage};
use crate::text::{
    spec_split_lines, spec_trim, spec_trim_start, spec_split_once, spec_find, spec_parse_uint,
    spec_is_ws, spec_starts_with, split_lines, trim, split_once, find_byte, lemma_spec_find,
    parse_u32, parse_u64, decode_bytes, bytes_eq, starts_with, is_ws,
};

verus! {

/// A parsed coverage block: start line, end line, execution count.
pub struct GoBlock {
    pub start: u32,
    pub end: u32,
    pub count: u64,
}

/// The index of the last occurrence of `.go:` in `s`, if any, pointing at
/// the `.`.
pub open spec fn spec_rfind_go(s: Seq<u8>) -> Option<int>
    decreases s.len(),
{
    if s.len() < 4 {
        None
    } else {
        let i = s.len() - 4;
        if s[i] == 46 && s[i + 1] == 103 && s[i + 2] == 111 && s[i + 3] == 58 {
            Some(i)
        } else {
            spec_rfind_go(s.drop_last())
        }
    }
}

/// The index of the first whitespace byte.
pub open spec fn spec_find_ws(s: Seq<u8>) -> Option<int>
    decreases s.len(),
{
    if s.len() == 0 {
        None
    } else if spec_is_ws(s[0]) {
        Some(0int)
    } else {
        match spec_find_ws(s.drop_first()) {
            Some(i) => Some(i + 1),
            None => None,
        }
    }
}

/// The bytes of a token: up to the first whitespace, or all of `s`.
pub open spec fn spec_token(s: Seq<u8>) -> Seq<u8> {
    match spec_find_ws(s) {
        Some(i) => s.take(i),
        None => s,
    }
}

/// The second whitespace-separated field of `s`, if there are at least
/// two.
pub open spec fn spec_second_field(s: Seq<u8>) -> Option<Seq<u8>> {
    let t1 = spec_trim_start(s);
    if t1.len() == 0 {
        None
    } else {
        let tok1 = spec_token(t1);
        let t2 = spec_trim_start(t1.skip(tok1.len() as int));
        if t2.len() == 0 {
            None
        } else {
            Some(spec_token(t2))
        }
    }
}

/// Whether a line looks like a Go coverage block: a `.go:` anchor, a comma
/// after it, and at least two whitespace-separated fields after it.
pub open spec fn spec_looks_like_go_block(line: Seq<u8>) -> bool {
    match spec_rfind_go(line) {
        None => false,
        Some(i) => {
            let after = line.skip(i + 4);
            spec_find(after, 44) is Some && spec_second_field(after) is Some
        },
    }
}

/// The file path and block a line parses to, if any.
pub open spec fn spec_parse_block(line: Seq<u8>) -> Option<(Seq<u8>, GoBlock)> {
    match spec_rfind_go(line) {
        None => None,
        Some(i) => {
            let file = line.take(i + 3);
            let rest = line.skip(i + 4);
            match spec_split_once(rest, 32) {
                None => None,
                Some((range, tail)) => match spec_split_once(range, 44) {
                    None => None,
                    Some((s, e)) => match spec_split_once(s, 46) {
                        None => None,
                        Some((s_line, _)) => match spec_split_once(e, 46) {
                            None => None,
                            Some((e_line, _)) => match spec_parse_uint(s_line, u32::MAX as nat) {
                                None => None,
                                Some(sl) => match spec_parse_uint(e_line, u32::MAX as nat) {
                                    None => None,
                                    Some(el) => match spec_second_field(tail) {
                                        None => None,
                                        Some(count_str) => match spec_parse_uint(
                                            count_str,
                                            u64::MAX as nat,
                                        ) {
                                            None => None,
                                            Some(c) => Some(
                                                (
                                                    file,
                                                    GoBlock {
                                                        start: sl as u32,
                                                        end: el as u32,
                                                        count: c as u64,
                                                    },
                                                ),
                                            ),
                                        },
                                    },
                                },
                            },
                        },
                    },
                },
            }
        },
    }
}

/// A block appended to its file's group, keeping first-seen file order.
pub open spec fn spec_add_block(
    groups: Seq<(Seq<u8>, Seq<GoBlock>)>,
    file: Seq<u8>,
    b: GoBlock,
) -> Seq<(Seq<u8>, Seq<GoBlock>)>
    decreases groups.len(),
{
    if groups.len() == 0 {
        seq![(file, seq![b])]
    } else if groups[0].0 == file {
        seq![(groups[0].0, groups[0].1.push(b))] + groups.drop_first()
    } else {
        seq![groups[0]] + spec_add_block(groups.drop_first(), file, b)
    }
}

/// One input line applied to the grouping state.
pub open spec fn spec_go_step(
    groups: Seq<(Seq<u8>, Seq<GoBlock>)>,
    raw: Seq<u8>,
) -> Seq<(Seq<u8>, Seq<GoBlock>)> {
    let line = spec_trim(raw);
    if line.len() == 0 || spec_starts_with(line, seq![109u8, 111u8, 100u8, 101u8, 58u8]) {
        groups
    } else {
        match spec_parse_block(line) {
            None => groups,
            Some((file, b)) => spec_add_block(groups, file, b),
        }
    }
}

/// The input's lines applied in order.
pub open spec fn spec_go_run(
    groups: Seq<(Seq<u8>, Seq<GoBlock>)>,
    lines: Seq<Seq<u8>>,
) -> Seq<(Seq<u8>, Seq<GoBlock>)>
    decreases lines.len(),
{
    if lines.len() == 0 {
        groups
    } else {
        spec_go_run(spec_go_step(groups, lines[0]), lines.drop_first())
    }
}

/// A line row recorded with the largest count seen so far, the rows kept
/// sorted by line number.
pub open spec fn spec_insert_line_max(rows: Seq<LineCoverage>, ln: u32, count: u64) -> Seq<
    LineCoverage,
>
    decreases rows.len(),
{
    if ln == 0 {
        rows
    } else if rows.len() == 0 {
        seq![LineCoverage { line_number: ln, hit_count: count }]
    } else if rows[0].line_number == ln {
        seq![
            LineCoverage {
                line_number: ln,
                hit_count: if count >= rows[0].hit_count {
                    count
                } else {
                    rows[0].hit_count
                },
            },
        ] + rows.drop_first()
    } else if ln < rows[0].line_number {
        seq![LineCoverage { line_number: ln, hit_count: count }] + rows
    } else {
        seq![rows[0]] + spec_insert_line_max(rows.drop_first(), ln, count)
    }
}

/// Every line of the inclusive range recorded with the block's count.
pub open spec fn spec_block_rows(rows: Seq<LineCoverage>, ln: int, end: int, count: u64) -> Seq<
    LineCoverage,
>
    decreases end - ln + 1,
{
    if ln > end || ln < 0 || end > u32::MAX {
        rows
    } else {
        spec_block_rows(spec_insert_line_max(rows, ln as u32, count), ln + 1, end, count)
    }
}

/// A whole group's blocks expanded into line rows.
pub open spec fn spec_group_rows(rows: Seq<LineCoverage>, blocks: Seq<GoBlock>) -> Seq<
    LineCoverage,
>
    decreases blocks.len(),
{
    if blocks.len() == 0 {
        rows
    } else {
        spec_group_rows(
            spec_block_rows(rows, blocks[0].start as int, blocks[0].end as int, blocks[0].count),
            blocks.drop_first(),
        )
    }
}

/// The remaining groups expanded into file records, from index `g` on, or
/// `None` when a path is not UTF-8.
pub open spec fn spec_groups_files_from(gv: Seq<(Seq<u8>, Seq<GoBlock>)>, g: int) -> Option<
    Seq<FileCoverageView>,
>
    decreases gv.len() - g,
{
    if g < 0 || g >= gv.len() {
        Some(Seq::empty())
    } else if valid_utf8(gv[g].0) {
        match spec_groups_files_from(gv, g + 1) {
            None => None,
            Some(rest) => Some(
                seq![
                    FileCoverageView {
                        path: decode_utf8(gv[g].0),
                        lines: spec_group_rows(Seq::empty(), gv[g].1),
                        branches: Seq::empty(),
                        functions: Seq::empty(),
                    },
                ] + rest,
            ),
        }
    } else {
        None
    }
}

/// The file records a Go coverage profile parses to.
pub open spec fn spec_parse_gocover(bytes: Seq<u8>) -> Option<Seq<FileCoverageView>> {
    spec_groups_files_from(spec_go_run(Seq::empty(), spec_split_lines(bytes)), 0)
}



/// A max-insertion keeps every row on line 1 or later.
pub proof fn lemma_insert_max_pos(rows: Seq<LineCoverage>, ln: u32, count: u64)
    requires
        forall|j: int| 0 <= j < rows.len() ==> (#[trigger] rows[j]).line_number >= 1,
    ensures
        forall|j: int|
            0 <= j < spec_insert_line_max(rows, ln, count).len() ==> (
            #[trigger] spec_insert_line_max(rows, ln, count)[j]).line_number >= 1,
    decreases rows.len(),
{
    let out = spec_insert_line_max(rows, ln, count);
    let lc = LineCoverage { line_number: ln, hit_count: count };
    if ln == 0 {
        assert(out == rows);
    } else if rows.len() == 0 {
        assert(out =~= seq![lc]);
    } else if rows[0].line_number == ln {
        assert(forall|j: int| 1 <= j < out.len() ==> #[trigger] out[j] == rows[j]);
    } else if ln < rows[0].line_number {
        assert(out =~= seq![lc] + rows);
        assert(forall|j: int| 1 <= j < out.len() ==> #[trigger] out[j] == rows[j - 1]);
    } else {
        let rest = rows.drop_first();
        assert(forall|k: int| 0 <= k < rest.len() ==> #[trigger] rest[k] == rows[k + 1]);
        lemma_insert_max_pos(rest, ln, count);
        let out2 = spec_insert_line_max(rest, ln, count);
        assert(out =~= seq![rows[0]] + out2);
        assert(forall|j: int| 1 <= j < out.len() ==> #[trigger] out[j] == out2[j - 1]);
    }
}

/// Expanding one block keeps every row on line 1 or later.
proof fn lemma_block_rows_pos(rows: Seq<LineCoverage>, ln: int, end: int, count: u64)
    requires
        forall|j: int| 0 <= j < rows.len() ==> (#[trigger] rows[j]).line_number >= 1,
    ensures
        forall|j: int|
            0 <= j < spec_block_rows(rows, ln, end, count).len() ==> (#[trigger] spec_block_rows(
                rows,
                ln,
                end,
                count,
            )[j]).line_number >= 1,
    decreases end - ln + 1,
{
    if ln > end || ln < 0 || end > u32::MAX {
    } else {
        lemma_insert_max_pos(rows, ln as u32, count);
        let ins = spec_insert_line_max(rows, ln as u32, count);
        lemma_block_rows_pos(ins, ln + 1, end, count);
        assert forall|j: int|
            0 <= j < spec_block_rows(rows, ln, end, count).len() implies (
        #[trigger] spec_block_rows(rows, ln, end, count)[j]).line_number >= 1 by {
            assert(spec_block_rows(rows, ln, end, count)[j] == spec_block_rows(
                ins,
                ln + 1,
                end,
                count,
            )[j]);
        }
    }
}

/// Expanding a group keeps every row on line 1 or later.
proof fn lemma_group_rows_pos(rows: Seq<LineCoverage>, blocks: Seq<GoBlock>)
    requires
        forall|j: int| 0 <= j < rows.len() ==> (#[trigger] rows[j]).line_number >= 1,
    ensures
        forall|j: int|
            0 <= j < spec_group_rows(rows, blocks).len() ==> (#[trigger] spec_group_rows(
                rows,
                blocks,
            )[j]).line_number >= 1,
    decreases blocks.len(),
{
    if blocks.len() == 0 {
    } else {
        lemma_block_rows_pos(rows, blocks[0].start as int, blocks[0].end as int, blocks[0].count);
        let ins = spec_block_rows(
            rows,
            blocks[0].start as int,
            blocks[0].end as int,
            blocks[0].count,
        );
        lemma_group_rows_pos(ins, blocks.drop_first());
        assert forall|j: int|
            0 <= j < spec_group_rows(rows, blocks).len() implies (#[trigger] spec_group_rows(
                rows,
                blocks,
            )[j]).line_number >= 1 by {
            assert(spec_group_rows(rows, blocks)[j] == spec_group_rows(
                ins,
                blocks.drop_first(),
            )[j]);
        }
    }
}

/// Law: every line row a parse emits sits on line 1 or later (a profile
/// has no branch rows).
pub proof fn lemma_gocover_rows_positive(bytes: Seq<u8>)
    ensures
        spec_parse_gocover(bytes) matches Some(files) ==> forall|k: int|
            0 <= k < files.len() ==> crate::model::rows_positive(#[trigger] files[k]),
{
    let gv = spec_go_run(Seq::empty(), spec_split_lines(bytes));
    lemma_groups_files_pos(gv, 0);
}

/// Every expanded group keeps its rows on line 1 or later.
proof fn lemma_groups_files_pos(gv: Seq<(Seq<u8>, Seq<GoBlock>)>, g: int)
    ensures
        spec_groups_files_from(gv, g) matches Some(files) ==> forall|k: int|
            0 <= k < files.len() ==> crate::model::rows_positive(#[trigger] files[k]),
    decreases gv.len() - g,
{
    if g < 0 || g >= gv.len() {
    } else if valid_utf8(gv[g].0) {
        lemma_groups_files_pos(gv, g + 1);
        match spec_groups_files_from(gv, g + 1) {
            None => {},
            Some(rest) => {
                lemma_group_rows_pos(Seq::empty(), gv[g].1);
                let f0 = FileCoverageView {
                    path: decode_utf8(gv[g].0),
                    lines: spec_group_rows(Seq::empty(), gv[g].1),
                    branches: Seq::empty(),
                    functions: Seq::empty(),
                };
                assert(crate::model::rows_positive(f0));
                let files = seq![f0] + rest;
                assert forall|k: int| 0 <= k < files.len() implies crate::model::rows_positive(
                    #[trigger] files[k],
                ) by {
                    if k > 0 {
                        assert(files[k] == rest[k - 1]);
                    } else {
                        assert(files[0] == f0);
                    }
                }
            },
        }
    }
}

// ---------------------------------------------------------------------------
// Executable parser
// ---------------------------------------------------------------------------

/// The index of the last `.go:` in `s`, if any.
fn rfind_go(s: &[u8]) -> (r: Option<usize>)
    ensures
        match r {
            Some(i) => Some(i as int) == spec_rfind_go(s@),
            None => spec_rfind_go(s@) is None,
        },
{
    let n = s.len();
    if n < 4 {
        return None;
    }
    let mut k: usize = n - 4;
    proof {
        assert(s@.take(n as int) =~= s@);
    }
    loop
        invariant
            n == s@.len(),
            4 <= n,
            0 <= k <= n - 4,
            spec_rfind_go(s@) == spec_rfind_go(s@.take(k + 4)),
        decreases k,
    {
        let ghost t = s@.take(k + 4);
        proof {
            assert(t.len() == k + 4);
            assert(forall|j: int| 0 <= j < t.len() ==> t[j] == s@[j]);
        }
        if *slice_index_get(s, k) == 46 && *slice_index_get(s, k + 1) == 103 && *slice_index_get(
            s,
            k + 2,
        ) == 111 && *slice_index_get(s, k + 3) == 58 {
            proof {
                assert(spec_rfind_go(t) == Some(k as int));
            }
            return Some(k);
        }
        proof {
            assert(spec_rfind_go(t) == spec_rfind_go(t.drop_last()));
            assert(t.drop_last() =~= s@.take(k + 3));
        }
        if k == 0 {
            proof {
                assert(s@.take(3).len() < 4);
            }
            return None;
        }
        k -= 1;
    }
}

/// `s` with leading ASCII whitespace removed.
pub fn skip_ws_pub(s: &[u8]) -> (r: &[u8])
    ensures
        r@ == spec_trim_start(s@),
{
    let n = s.len();
    let mut lo: usize = 0;
    while lo < n && is_ws(*slice_index_get(s, lo))
        invariant
            n == s@.len(),
            0 <= lo <= n,
            forall|j: int| 0 <= j < lo ==> spec_is_ws(s@[j]),
        decreases n - lo,
    {
        lo += 1;
    }
    proof {
        crate::text::lemma_trim_start_skip(s@, lo as int);
    }
    let r = slice_subrange(s, lo, n);
    proof {
        assert(r@ =~= s@.skip(lo as int));
    }
    r
}

proof fn lemma_find_ws(s: Seq<u8>)
    ensures
        match spec_find_ws(s) {
            Some(i) => 0 <= i < s.len() && spec_is_ws(s[i]) && (forall|j: int|
                0 <= j < i ==> !spec_is_ws(s[j])),
            None => forall|j: int| 0 <= j < s.len() ==> !spec_is_ws(s[j]),
        },
    decreases s.len(),
{
    if s.len() > 0 && !spec_is_ws(s[0]) {
        let d = s.drop_first();
        lemma_find_ws(d);
        assert(forall|j: int| 0 <= j < d.len() ==> d[j] == s[j + 1]);
        match spec_find_ws(d) {
            Some(i) => {
                assert(spec_find_ws(s) == Some(i + 1));
                assert(spec_is_ws(s[i + 1]));
                assert forall|j: int| 0 <= j < i + 1 implies !spec_is_ws(s[j]) by {
                    if j > 0 {
                        assert(!spec_is_ws(d[j - 1]));
                    }
                }
            },
            None => {
                assert forall|j: int| 0 <= j < s.len() implies !spec_is_ws(s[j]) by {
                    if j > 0 {
                        assert(!spec_is_ws(d[j - 1]));
                    }
                }
            },
        }
    }
}

/// The token at the head of `s`: its bytes up to the first whitespace.
fn token(s: &[u8]) -> (r: &[u8])
    ensures
        r@ == spec_token(s@),
{
    let n = s.len();
    let mut i: usize = 0;
    while i < n
        invariant
            n == s@.len(),
            0 <= i <= n,
            forall|j: int| 0 <= j < i ==> !spec_is_ws(s@[j]),
        decreases n - i,
    {
        if is_ws(*slice_index_get(s, i)) {
            proof {
                lemma_find_ws(s@);
                match spec_find_ws(s@) {
                    Some(q) => {
                        if q < i {
                            assert(!spec_is_ws(s@[q]));
                        } else if q > i {
                            assert(!spec_is_ws(s@[i as int]));
                        }
                    },
                    None => {
                        assert(!spec_is_ws(s@[i as int]));
                    },
                }
            }
            let r = slice_subrange(s, 0, i);
            assert(r@ =~= s@.take(i as int));
            return r;
        }
        i += 1;
    }
    proof {
        lemma_find_ws(s@);
        match spec_find_ws(s@) {
            Some(q) => {
                assert(!spec_is_ws(s@[q]));
            },
            None => {},
        }
    }
    s
}

/// The second whitespace-separated field, if there are at least two.
fn second_field(s: &[u8]) -> (r: Option<&[u8]>)
    ensures
        match r {
            Some(f) => Some(f@) == spec_second_field(s@),
            None => spec_second_field(s@) is None,
        },
{
    let t1 = skip_ws_pub(s);
    if t1.len() == 0 {
        return None;
    }
    let tok1 = token(t1);
    proof {
        lemma_find_ws(t1@);
        assert(tok1@.len() <= t1@.len());
    }
    let after = slice_subrange(t1, tok1.len(), t1.len());
    proof {
        assert(after@ =~= t1@.skip(tok1@.len() as int));
    }
    let t2 = skip_ws_pub(after);
    if t2.len() == 0 {
        return None;
    }
    Some(token(t2))
}

/// The file path and block a trimmed line parses to, if any.
pub fn parse_block_line(line: &[u8]) -> (r: Option<(&[u8], GoBlock)>)
    ensures
        match r {
            Some(p) => {
                &&& spec_parse_block(line@) matches Some(q)
                &&& q.0 == p.0@
                &&& q.1.start == p.1.start
                &&& q.1.end == p.1.end
                &&& q.1.count == p.1.count
            },
            None => spec_parse_block(line@) is None,
        },
{
    let i = match rfind_go(line) {
        Some(i) => i,
        None => {
            return None;
        },
    };
    let ll = line.len();
    proof {
        lemma_rfind_go_bounds(line@);
        assert(i + 4 <= ll);
    }
    let file = slice_subrange(line, 0, i + 3);
    let rest = slice_subrange(line, i + 4, line.len());
    proof {
        assert(file@ =~= line@.take(i + 3));
        assert(rest@ =~= line@.skip(i + 4));
    }
    let (range, tail) = match split_once(rest, 32) {
        Some(p) => p,
        None => {
            return None;
        },
    };
    let (sp, ep) = match split_once(range, 44) {
        Some(p) => p,
        None => {
            return None;
        },
    };
    let (s_line, _scol) = match split_once(sp, 46) {
        Some(p) => p,
        None => {
            return None;
        },
    };
    let (e_line, _ecol) = match split_once(ep, 46) {
        Some(p) => p,
        None => {
            return None;
        },
    };
    let sl = match parse_u32(s_line) {
        Some(v) => v,
        None => {
            return None;
        },
    };
    let el = match parse_u32(e_line) {
        Some(v) => v,
        None => {
            return None;
        },
    };
    let count_str = match second_field(tail) {
        Some(f) => f,
        None => {
            return None;
        },
    };
    let c = match parse_u64(count_str) {
        Some(v) => v,
        None => {
            return None;
        },
    };
    Some((file, GoBlock { start: sl, end: el, count: c }))
}

/// A found `.go:` anchor leaves room for the four marker bytes.
proof fn lemma_rfind_go_bounds(s: Seq<u8>)
    ensures
        spec_rfind_go(s) matches Some(i) ==> 0 <= i && i + 4 <= s.len(),
    decreases s.len(),
{
    if s.len() >= 4 {
        lemma_rfind_go_bounds(s.drop_last());
    }
}

/// Parse Go coverage profile from raw bytes.
#[verifier::rlimit(50)]
pub fn parse(input: &[u8]) -> (r: Result<CoverageData, CovrsError>)
    ensures
        match spec_parse_gocover(input@) {
            Some(files) => r matches Ok(d) && d@ == files,
            None => r matches Err(e) && e matches CovrsError::Parse(m) && m@ == (
            "Invalid UTF-8 in Go coverage data")@,
        },
{
    let lines = split_lines(input);
    let ghost all = spec_split_lines(input@);
    let mut groups: Vec<(Vec<u8>, Vec<GoBlock>)> = Vec::new();
    let n = lines.len();
    let mut i: usize = 0;
    proof {
        assert(lines.deep_view() == all);
        assert(lines.deep_view().len() == lines@.len());
        assert(all.skip(0) =~= all);
        assert(view_groups(&groups) =~= Seq::<(Seq<u8>, Seq<GoBlock>)>::empty());
    }
    while i < n
        invariant
            n == lines@.len() == all.len(),
            lines.deep_view() == all,
            all == spec_split_lines(input@),
            0 <= i <= n,
            spec_go_run(Seq::empty(), all) == spec_go_run(view_groups(&groups), all.skip(i as int)),
        decreases n - i,
    {
        let ghost g0 = view_groups(&groups);
        let raw: &Vec<u8> = &lines[i];
        proof {
            assert(raw@ == lines.deep_view()[i as int]);
            assert(all.skip(i as int)[0] == all[i as int]);
            assert(all.skip(i as int).drop_first() =~= all.skip(i + 1));
        }
        let line = trim(raw.as_slice());
        let mode: Vec<u8> = vec![109, 111, 100, 101, 58];
        proof {
            assert(mode@ =~= seq![109u8, 111u8, 100u8, 101u8, 58u8]);
        }
        if line.len() == 0 || starts_with(line, mode.as_slice()) {
            // Blank line or mode header.
        } else {
            match parse_block_line(line) {
                None => {},
                Some((file, b)) => {
                    add_block_exec(&mut groups, file, b);
                },
            }
        }
        proof {
            assert(view_groups(&groups) == spec_go_step(g0, all[i as int]));
        }
        i += 1;
    }
    proof {
        assert(all.skip(n as int) =~= Seq::<Seq<u8>>::empty());
    }
    // Expand each group's blocks into sorted line rows.
    let mut files: Vec<FileCoverage> = Vec::new();
    let ghost gv = view_groups(&groups);
    let m = groups.len();
    let mut g: usize = 0;
    while g < m
        invariant
            m == groups@.len(),
            gv == view_groups(&groups),
            gv.len() == m,
            gv == spec_go_run(Seq::empty(), spec_split_lines(input@)),
            0 <= g <= m,
            files.deep_view().len() == g,
            forall|k: int| 0 <= k < g ==> valid_utf8((#[trigger] gv[k]).0),
            forall|rest2: Seq<FileCoverageView>|
                spec_groups_files_from(gv, g as int) == Some(rest2) ==> spec_groups_files_from(
                    gv,
                    0,
                ) == Some(files.deep_view() + rest2),
        decreases m - g,
    {
        proof {
            assert(gv[g as int] == (groups@[g as int].0@, groups@[g as int].1@));
        }
        let path_bytes: &Vec<u8> = &groups[g].0;
        let path = match decode_bytes(path_bytes.as_slice()) {
            Some(p) => p,
            None => {
                proof {
                    assert(spec_groups_files_from(gv, g as int) is None);
                    lemma_groups_files_none(gv, g as int);
                    assert(spec_parse_gocover(input@) is None);
                }
                return Err(CovrsError::Parse(("Invalid UTF-8 in Go coverage data").to_owned()));
            },
        };
        let blocks: &Vec<GoBlock> = &groups[g].1;
        let mut rows: Vec<LineCoverage> = Vec::new();
        let bl = blocks.len();
        let mut b: usize = 0;
        proof {
            assert(view_blocks(blocks).skip(0) =~= view_blocks(blocks));
        }
        while b < bl
            invariant
                bl == blocks@.len(),
                0 <= b <= bl,
                spec_group_rows(Seq::empty(), view_blocks(blocks)) == spec_group_rows(
                    rows@,
                    view_blocks(blocks).skip(b as int),
                ),
            decreases bl - b,
        {
            proof {
                assert(view_blocks(blocks).skip(b as int)[0] == view_blocks(blocks)[b as int]);
                assert(view_blocks(blocks).skip(b as int).drop_first() =~= view_blocks(
                    blocks,
                ).skip(b + 1));
            }
            let start = blocks[b].start;
            let end = blocks[b].end;
            let count = blocks[b].count;
            let mut ln = start;
            let mut done = start > end;
            let ghost pos: int = if done {
                end as int + 1
            } else {
                ln as int
            };
            while !done
                invariant
                    pos == (if done {
                        end as int + 1
                    } else {
                        ln as int
                    }),
                    !done ==> start <= ln <= end,
                    spec_group_rows(Seq::empty(), view_blocks(blocks)) == spec_group_rows(
                        spec_block_rows(rows@, pos, end as int, count),
                        view_blocks(blocks).skip(b + 1),
                    ),
                decreases end as int + 1 - pos,
            {
                insert_line_max_exec(&mut rows, ln, count);
                if ln == end {
                    done = true;
                    proof {
                        pos = end as int + 1;
                    }
                } else {
                    ln += 1;
                    proof {
                        pos = ln as int;
                    }
                }
            }
            b += 1;
        }
        proof {
            assert(view_blocks(blocks).skip(bl as int) =~= Seq::<GoBlock>::empty());
        }
        let ghost fsv = files.deep_view();
        let f = FileCoverage { path, lines: rows, branches: Vec::new(), functions: Vec::new() };
        let ghost fv = f@;
        proof {
            let empty_fns: Seq<FunctionCoverageView> = Seq::empty();
            assert(fv.functions =~= empty_fns);
        }
        files.push(f);
        proof {
            assert(files.deep_view() =~= fsv.push(fv)) by {
                assert(forall|k: int|
                    0 <= k < fsv.len() ==> #[trigger] files.deep_view()[k] == fsv[k]);
                assert(files.deep_view()[fsv.len() as int] == fv);
            }
            assert forall|rest2: Seq<FileCoverageView>|
                spec_groups_files_from(gv, g + 1) == Some(rest2) implies spec_groups_files_from(
                gv,
                0,
            ) == Some(files.deep_view() + rest2) by {
                assert(spec_groups_files_from(gv, g as int) == Some(seq![fv] + rest2));
                assert(fsv + (seq![fv] + rest2) =~= files.deep_view() + rest2);
            }
        }
        g += 1;
    }
    proof {
        assert(spec_groups_files_from(gv, m as int) == Some(Seq::<FileCoverageView>::empty()));
        assert(spec_groups_files_from(gv, 0) == Some(
            files.deep_view() + Seq::<FileCoverageView>::empty(),
        ));
        assert(files.deep_view() + Seq::<FileCoverageView>::empty() =~= files.deep_view());
        assert(spec_parse_gocover(input@) == Some(files.deep_view()));
    }
    Ok(CoverageData { files })
}

/// The mathematical image of the grouping state.
pub open spec fn view_groups(groups: &Vec<(Vec<u8>, Vec<GoBlock>)>) -> Seq<(Seq<u8>, Seq<GoBlock>)> {
    Seq::new(groups@.len(), |i: int| (groups@[i].0@, groups@[i].1@))
}

/// The mathematical image of a block list.
pub open spec fn view_blocks(blocks: &Vec<GoBlock>) -> Seq<GoBlock> {
    blocks@
}

/// An undecodable path at `g` makes the whole expansion fail, whatever
/// stands before it.
proof fn lemma_groups_files_none(gv: Seq<(Seq<u8>, Seq<GoBlock>)>, g: int)
    requires
        0 <= g <= gv.len(),
        spec_groups_files_from(gv, g) is None,
        forall|k: int| 0 <= k < g ==> valid_utf8((#[trigger] gv[k]).0),
    ensures
        spec_groups_files_from(gv, 0) is None,
    decreases g,
{
    if g > 0 {
        assert(spec_groups_files_from(gv, g - 1) is None);
        lemma_groups_files_none(gv, g - 1);
    }
}

/// A line row recorded with the largest count seen so far.
pub fn insert_line_max_exec(rows: &mut Vec<LineCoverage>, ln: u32, count: u64)
    ensures
        final(rows)@ == spec_insert_line_max(old(rows)@, ln, count),
{
    if ln == 0 {
        return ;
    }
    let ghost orig = rows@;
    let n = rows.len();
    let mut j: usize = 0;
    while j < n
        invariant
            ln >= 1,
            n == rows@.len(),
            rows@ == orig,
            orig == old(rows)@,
            0 <= j <= n,
            forall|k: int| 0 <= k < j ==> (#[trigger] orig[k]).line_number < ln,
        decreases n - j,
    {
        if rows[j].line_number == ln {
            let hit = if count >= rows[j].hit_count {
                count
            } else {
                rows[j].hit_count
            };
            rows.remove(j);
            rows.insert(j, LineCoverage { line_number: ln, hit_count: hit });
            proof {
                lemma_insert_line_max(orig, ln, count, j as int);
                assert(rows@ =~= orig.update(
                    j as int,
                    LineCoverage { line_number: ln, hit_count: hit },
                ));
            }
            return ;
        }
        if rows[j].line_number > ln {
            rows.insert(j, LineCoverage { line_number: ln, hit_count: count });
            proof {
                lemma_insert_line_max(orig, ln, count, j as int);
                assert(rows@ =~= orig.subrange(0, j as int) + seq![
                    LineCoverage { line_number: ln, hit_count: count },
                ] + orig.subrange(j as int, orig.len() as int));
            }
            return ;
        }
        j += 1;
    }
    rows.push(LineCoverage { line_number: ln, hit_count: count });
    proof {
        lemma_insert_line_max(orig, ln, count, n as int);
    }
}

/// Where `spec_insert_line_max` puts the new row, depending on whether a
/// row with the same or a larger line number exists at `j`.
proof fn lemma_insert_line_max(rows: Seq<LineCoverage>, ln: u32, count: u64, j: int)
    requires
        ln >= 1,
        0 <= j <= rows.len(),
        forall|k: int| 0 <= k < j ==> (#[trigger] rows[k]).line_number < ln,
    ensures
        j < rows.len() && rows[j].line_number == ln ==> spec_insert_line_max(rows, ln, count)
            =~= rows.update(
            j,
            LineCoverage {
                line_number: ln,
                hit_count: if count >= rows[j].hit_count {
                    count
                } else {
                    rows[j].hit_count
                },
            },
        ),
        j < rows.len() && rows[j].line_number > ln ==> spec_insert_line_max(rows, ln, count)
            =~= rows.subrange(0, j) + seq![LineCoverage { line_number: ln, hit_count: count }]
            + rows.subrange(j, rows.len() as int),
        j == rows.len() ==> spec_insert_line_max(rows, ln, count) =~= rows.push(
            LineCoverage { line_number: ln, hit_count: count },
        ),
    decreases rows.len(),
{
    if rows.len() == 0 {
    } else if rows[0].line_number == ln {
        assert(j == 0);
    } else if ln < rows[0].line_number {
        assert(j == 0);
        assert(rows.subrange(0, 0) =~= Seq::<LineCoverage>::empty());
        assert(rows.subrange(0, rows.len() as int) =~= rows);
    } else {
        let rest = rows.drop_first();
        assert(forall|k: int| 0 <= k < rest.len() ==> #[trigger] rest[k] == rows[k + 1]);
        if j == 0 {
            // Every conclusion's hypothesis fails when the first row's line
            // number is already below `ln`.
            return ;
        }
        lemma_insert_line_max(rest, ln, count, j - 1);
        if j < rows.len() && rows[j].line_number == ln {
            assert(seq![rows[0]] + rest.update(
                j - 1,
                LineCoverage {
                    line_number: ln,
                    hit_count: if count >= rows[j].hit_count {
                        count
                    } else {
                        rows[j].hit_count
                    },
                },
            ) =~= rows.update(
                j,
                LineCoverage {
                    line_number: ln,
                    hit_count: if count >= rows[j].hit_count {
                        count
                    } else {
                        rows[j].hit_count
                    },
                },
            ));
        } else if j < rows.len() && rows[j].line_number > ln {
            assert(seq![rows[0]] + (rest.subrange(0, j - 1) + seq![
                LineCoverage { line_number: ln, hit_count: count },
            ] + rest.subrange(j - 1, rest.len() as int)) =~= rows.subrange(0, j) + seq![
                LineCoverage { line_number: ln, hit_count: count },
            ] + rows.subrange(j, rows.len() as int));
        } else {
            assert(seq![rows[0]] + rest.push(LineCoverage { line_number: ln, hit_count: count })
                =~= rows.push(LineCoverage { line_number: ln, hit_count: count }));
        }
    }
}

/// A block appended to its file's group.
fn add_block_exec(groups: &mut Vec<(Vec<u8>, Vec<GoBlock>)>, file: &[u8], b: GoBlock)
    ensures
        view_groups(final(groups)) == spec_add_block(view_groups(old(groups)), file@, b),
{
    let ghost orig = view_groups(groups);
    let n = groups.len();
    let mut j: usize = 0;
    while j < n
        invariant
            n == groups@.len(),
            view_groups(groups) == orig,
            orig == view_groups(old(groups)),
            orig.len() == n,
            0 <= j <= n,
            forall|k: int| 0 <= k < j ==> (#[trigger] orig[k]).0 != file@,
        decreases n - j,
    {
        proof {
            assert(orig[j as int] == (groups@[j as int].0@, groups@[j as int].1@));
        }
        if bytes_eq(groups[j].0.as_slice(), file) {
            let mut e = groups.remove(j);
            e.1.push(b);
            groups.insert(j, e);
            proof {
                lemma_add_block_at(orig, file@, b, j as int);
                assert(view_groups(groups) =~= orig.update(
                    j as int,
                    (orig[j as int].0, orig[j as int].1.push(b)),
                ));
            }
            return ;
        }
        j += 1;
    }
    let mut blocks: Vec<GoBlock> = Vec::new();
    blocks.push(b);
    assert(blocks@ =~= seq![b]);
    groups.push((crate::text::copy_bytes(file), blocks));
    proof {
        lemma_add_block_at(orig, file@, b, n as int);
        assert(view_groups(groups) =~= orig.push((file@, seq![b])));
    }
}

/// `spec_add_block` updates the first matching group or appends one.
proof fn lemma_add_block_at(groups: Seq<(Seq<u8>, Seq<GoBlock>)>, file: Seq<u8>, b: GoBlock, j: int)
    requires
        0 <= j <= groups.len(),
        forall|k: int| 0 <= k < j ==> (#[trigger] groups[k]).0 != file,
        j < groups.len() ==> groups[j].0 == file,
    ensures
        j < groups.len() ==> spec_add_block(groups, file, b) =~= groups.update(
            j,
            (groups[j].0, groups[j].1.push(b)),
        ),
        j == groups.len() ==> spec_add_block(groups, file, b) =~= groups.push((file, seq![b])),
    decreases groups.len(),
{
    if groups.len() == 0 {
    } else if groups[0].0 == file {
        assert(j == 0);
        assert(seq![(groups[0].0, groups[0].1.push(b))] + groups.drop_first() =~= groups.update(
            0,
            (groups[0].0, groups[0].1.push(b)),
        ));
    } else {
        let rest = groups.drop_first();
        assert(forall|k: int| 0 <= k < rest.len() ==> #[trigger] rest[k] == groups[k + 1]);
        assert(j > 0);
        lemma_add_block_at(rest, file, b, j - 1);
        if j < groups.len() {
            assert(seq![groups[0]] + rest.update(j - 1, (groups[j].0, groups[j].1.push(b)))
                =~= groups.update(j, (groups[j].0, groups[j].1.push(b))));
        } else {
            assert(seq![groups[0]] + rest.push((file, seq![b])) =~= groups.push((file, seq![b])));
        }
    }
}


/// Quick check: does a trimmed line look like a Go coverage block?
pub fn looks_like_go_block_exec(line: &[u8]) -> (r: bool)
    ensures
        r == spec_looks_like_go_block(line@),
{
    match rfind_go(line) {
        None => false,
        Some(i) => {
            let ll = line.len();
            proof {
                lemma_rfind_go_bounds(line@);
                assert(i + 4 <= ll);
            }
            let after = slice_subrange(line, i + 4, ll);
            proof {
                assert(after@ =~= line@.skip(i + 4));
            }
            let has_comma = match find_byte(after, 44) {
                Some(_) => true,
                None => false,
            };
            let has_two = match second_field(after) {
                Some(_) => true,
                None => false,
            };
            has_comma && has_two
        },
    }
}


/// Quick check over text: does this line look like a Go coverage block?
pub fn looks_like_go_block(line: &str) -> (r: bool)
    ensures
        r == spec_looks_like_go_block(
            vstd::string::StringSliceAdditionalSpecFns::spec_bytes(line),
        ),
{
    looks_like_go_block_exec(line.as_bytes())
}

} // verus!
