//! Parser for Cobertura XML coverage reports: `<sources>` prefixes,
//! `<class filename>` elements opening files, and `<line number hits
//! branch condition-coverage>` rows appearing both inside `<method>` and
//! directly under `<class>`. Lines are deduplicated per file by keeping
//! the larger hit count; branches (`branch="true"` with a
//! `condition-coverage="X% (c/t)"` attribute) are recorded only on the
//! first encounter of their line, `t` arms with the first `c` hit. Each
//! `<method>` emits one function row, hit when any of its lines ran.
//!
//! The result's shape is verified (per file, line rows stay ordered by
//! line number); the exact row values are checked by tests rather than
//! proof.

use vstd::prelude::*;
use vstd::string::{StrSliceExecFns, StringExecFns, StringSliceAdditionalSpecFns};
use crate::error::CovrsError;
use crate::model::{
    BranchCoverage, CoverageData, FileCoverage, FunctionCoverage, LineCoverage,
};
use crate::text::{parse_u32, parse_u64, str_eq, bytes_eq, is_digit, spec_is_digit};
use crate::xml::{XmlEvent, spec_xml_events, spec_xml_error_pos, read_xml_events, get_attr};
use crate::diff::clone_string;
use crate::parsers::gocover::{spec_insert_line_max, insert_line_max_exec};
use crate::parsers::jacoco::{lines_sorted, files_sorted};

verus! {

/// Max-deduplicating insertion keeps line rows ordered.
pub proof fn lemma_insert_max_sorted(rows: Seq<LineCoverage>, ln: u32, count: u64)
    requires
        lines_sorted(rows),
    ensures
        lines_sorted(spec_insert_line_max(rows, ln, count)),
    decreases rows.len(),
{
    let out = spec_insert_line_max(rows, ln, count);
    let lc = LineCoverage { line_number: ln, hit_count: count };
    if ln == 0 {
        assert(out == rows);
    } else if rows.len() == 0 {
    } else if rows[0].line_number == ln {
        assert(forall|k: int|
            1 <= k < out.len() ==> #[trigger] out[k] == rows.drop_first()[k - 1]);
        assert(forall|k: int|
            0 <= k < rows.drop_first().len() ==> #[trigger] rows.drop_first()[k] == rows[k + 1]);
    } else if ln < rows[0].line_number {
        assert(out =~= seq![lc] + rows);
        assert forall|i: int, j: int|
            0 <= i < j < out.len() implies (#[trigger] out[i]).line_number <= (
        #[trigger] out[j]).line_number by {
            if i > 0 {
                assert(out[i] == rows[i - 1]);
                assert(out[j] == rows[j - 1]);
            } else {
                assert(out[j] == rows[j - 1]);
                assert(rows[0].line_number <= rows[j - 1].line_number);
            }
        }
    } else {
        let rest = rows.drop_first();
        assert(forall|k: int| 0 <= k < rest.len() ==> #[trigger] rest[k] == rows[k + 1]);
        lemma_insert_max_sorted(rest, ln, count);
        let out2 = spec_insert_line_max(rest, ln, count);
        assert(out =~= seq![rows[0]] + out2);
        assert forall|i: int, j: int|
            0 <= i < j < out.len() implies (#[trigger] out[i]).line_number <= (
        #[trigger] out[j]).line_number by {
            if i > 0 {
                assert(out[i] == out2[i - 1]);
                assert(out[j] == out2[j - 1]);
            } else {
                assert(out[j] == out2[j - 1]);
                lemma_insert_max_member(rest, ln, count, j - 1);
                assert(rows[0].line_number <= out2[j - 1].line_number);
            }
        }
    }
}

/// Every row of a max-insertion carries the new line number or an old row.
proof fn lemma_insert_max_member(rows: Seq<LineCoverage>, ln: u32, count: u64, k: int)
    requires
        0 <= k < spec_insert_line_max(rows, ln, count).len(),
    ensures
        spec_insert_line_max(rows, ln, count)[k].line_number == ln || rows.contains(
            spec_insert_line_max(rows, ln, count)[k],
        ),
    decreases rows.len(),
{
    let out = spec_insert_line_max(rows, ln, count);
    if ln == 0 {
        assert(out == rows);
        assert(rows.contains(out[k]));
    } else if rows.len() == 0 {
    } else if rows[0].line_number == ln {
        if k > 0 {
            assert(out[k] == rows.drop_first()[k - 1]);
            assert(rows.drop_first()[k - 1] == rows[k]);
        }
    } else if ln < rows[0].line_number {
        if k > 0 {
            assert(out[k] == rows[k - 1]);
        }
    } else {
        let rest = rows.drop_first();
        assert(forall|q: int| 0 <= q < rest.len() ==> #[trigger] rest[q] == rows[q + 1]);
        if k == 0 {
            assert(out[0] == rows[0]);
        } else {
            assert(out[k] == spec_insert_line_max(rest, ln, count)[k - 1]);
            lemma_insert_max_member(rest, ln, count, k - 1);
            if spec_insert_line_max(rest, ln, count)[k - 1].line_number != ln {
                let q = choose|q: int|
                    0 <= q < rest.len() && rest[q] == spec_insert_line_max(rest, ln, count)[k - 1];
                assert(rows[q + 1] == spec_insert_line_max(rest, ln, count)[k - 1]);
            }
        }
    }
}

/// The index of the first `<source>` prefix that is non-empty once its
/// trailing slashes are trimmed.
pub open spec fn spec_first_nonempty_source(sources: Seq<Seq<char>>) -> Option<int>
    decreases sources.len(),
{
    if sources.len() == 0 {
        None
    } else if crate::diff::spec_trim_slashes(sources[0]).len() > 0 {
        Some(0int)
    } else {
        match spec_first_nonempty_source(sources.drop_first()) {
            Some(i) => Some(i + 1),
            None => None,
        }
    }
}

proof fn lemma_first_nonempty_source(sources: Seq<Seq<char>>)
    ensures
        match spec_first_nonempty_source(sources) {
            Some(i) => 0 <= i < sources.len() && crate::diff::spec_trim_slashes(sources[i]).len()
                > 0 && (forall|j: int|
                0 <= j < i ==> crate::diff::spec_trim_slashes(#[trigger] sources[j]).len() == 0),
            None => forall|j: int|
                0 <= j < sources.len() ==> crate::diff::spec_trim_slashes(
                    #[trigger] sources[j],
                ).len() == 0,
        },
    decreases sources.len(),
{
    if sources.len() > 0 && crate::diff::spec_trim_slashes(sources[0]).len() == 0 {
        let d = sources.drop_first();
        lemma_first_nonempty_source(d);
        assert(forall|j: int| 0 <= j < d.len() ==> #[trigger] d[j] == sources[j + 1]);
        match spec_first_nonempty_source(d) {
            Some(i) => {
                assert forall|j: int|
                    0 <= j < i + 1 implies crate::diff::spec_trim_slashes(
                    #[trigger] sources[j],
                ).len() == 0 by {
                    if j > 0 {
                        assert(crate::diff::spec_trim_slashes(d[j - 1]).len() == 0);
                    }
                }
            },
            None => {
                assert forall|j: int|
                    0 <= j < sources.len() implies crate::diff::spec_trim_slashes(
                    #[trigger] sources[j],
                ).len() == 0 by {
                    if j > 0 {
                        assert(crate::diff::spec_trim_slashes(d[j - 1]).len() == 0);
                    }
                }
            },
        }
    }
}

/// A class filename resolved against the `<source>` prefixes: an absolute
/// filename is kept; otherwise the first non-empty prefix, trimmed of
/// trailing slashes, is prepended; with none, the filename is unchanged.
pub open spec fn spec_resolve_source_path(filename: Seq<char>, sources: Seq<Seq<char>>) -> Seq<
    char,
> {
    if filename.len() > 0 && filename[0] == '/' {
        filename
    } else {
        match spec_first_nonempty_source(sources) {
            Some(i) => crate::diff::spec_trim_slashes(sources[i]) + seq!['/'] + filename,
            None => filename,
        }
    }
}

/// Resolve a class filename against the `<source>` prefixes.
pub fn resolve_source_path(filename: &str, sources: &Vec<String>) -> (r: String)
    ensures
        r@ == spec_resolve_source_path(filename@, view_sources(sources)),
{
    proof {
        lemma_first_nonempty_source(view_sources(sources));
    }
    if filename.unicode_len() > 0 && filename.get_char(0) == '/' {
        return filename.to_owned();
    }
    let ghost sv = view_sources(sources);
    let n = sources.len();
    let mut i: usize = 0;
    while i < n
        invariant
            n == sources@.len(),
            sv == view_sources(sources),
            sv.len() == n,
            0 <= i <= n,
            !(filename@.len() > 0 && filename@[0] == '/'),
            forall|j: int| 0 <= j < i ==> crate::diff::spec_trim_slashes(#[trigger] sv[j]).len() == 0,
        decreases n - i,
    {
        proof {
            assert(sv[i as int] == sources@[i as int]@);
        }
        let base = crate::diff::trim_trailing_slashes_pub(sources[i].as_str());
        if base.unicode_len() > 0 {
            proof {
                lemma_first_nonempty_source(sv);
                match spec_first_nonempty_source(sv) {
                    Some(q) => {
                        if q < i {
                            assert(crate::diff::spec_trim_slashes(sv[q]).len() == 0);
                        } else if q > i {
                            assert(crate::diff::spec_trim_slashes(sv[i as int]).len() == 0);
                        }
                    },
                    None => {
                        assert(crate::diff::spec_trim_slashes(sv[i as int]).len() == 0);
                    },
                }
            }
            let mut out = base;
            out.append("/");
            assert(("/")@ =~= seq!['/']) by {
                reveal_strlit("/");
            }
            out.append(filename);
            return out;
        }
        i += 1;
    }
    proof {
        lemma_first_nonempty_source(sv);
        match spec_first_nonempty_source(sv) {
            Some(q) => {
                assert(crate::diff::spec_trim_slashes(sv[q]).len() == 0);
            },
            None => {},
        }
    }
    filename.to_owned()
}

/// The mathematical image of the `<source>` prefixes.
pub open spec fn view_sources(sources: &Vec<String>) -> Seq<Seq<char>> {
    Seq::new(sources@.len(), |i: int| sources@[i]@)
}

/// The end of the digit run starting at `i`.
pub open spec fn spec_run_end(s: Seq<u8>, i: int) -> int
    decreases s.len() - i,
{
    if 0 <= i < s.len() && spec_is_digit(s[i]) {
        spec_run_end(s, i + 1)
    } else {
        i
    }
}

proof fn lemma_run_end(s: Seq<u8>, i: int, j: int)
    requires
        0 <= i <= j <= s.len(),
        forall|k: int| i <= k < j ==> spec_is_digit(#[trigger] s[k]),
        j < s.len() ==> !spec_is_digit(s[j]),
    ensures
        spec_run_end(s, i) == j,
    decreases j - i,
{
    if i < j {
        assert(spec_is_digit(s[i]));
        lemma_run_end(s, i + 1, j);
    }
}

/// A digit value clamped to zero above the `u32` range, as a failed
/// `str::parse` is.
pub open spec fn spec_u32_or_zero(digits: Seq<u8>) -> u32 {
    match crate::text::spec_parse_uint(digits, u32::MAX as nat) {
        Some(v) => v as u32,
        None => 0u32,
    }
}

/// `digits/digits)` read at `from`, if that is what stands there.
pub open spec fn spec_try_pair(s: Seq<u8>, from: int) -> Option<(u32, u32)> {
    let i = spec_run_end(s, from);
    if i == from || i >= s.len() || s[i] != 47 {
        None
    } else {
        let j = spec_run_end(s, i + 1);
        if j == i + 1 || j >= s.len() || s[j] != 41 {
            None
        } else {
            Some((spec_u32_or_zero(s.subrange(from, i)), spec_u32_or_zero(s.subrange(i + 1, j))))
        }
    }
}

/// The first parenthesized `digits/digits` pair at or after `i`.
pub open spec fn spec_parse_condition(s: Seq<u8>, i: int) -> Option<(u32, u32)>
    decreases s.len() - i,
{
    if i < 0 || i >= s.len() {
        None
    } else if s[i] == 40 {
        match spec_try_pair(s, i + 1) {
            Some(p) => Some(p),
            None => spec_parse_condition(s, i + 1),
        }
    } else {
        spec_parse_condition(s, i + 1)
    }
}

/// The covered and total arm counts from a `condition-coverage` value
/// such as `50% (1/2)`: the first parenthesized `digits/digits` pair.
pub fn parse_condition_coverage(s: &[u8]) -> (r: Option<(u32, u32)>)
    ensures
        r == spec_parse_condition(s@, 0),
{
    let n = s.len();
    let mut i: usize = 0;
    while i < n
        invariant
            n == s@.len(),
            0 <= i <= n,
            spec_parse_condition(s@, 0) == spec_parse_condition(s@, i as int),
        decreases n - i,
    {
        if *vstd::slice::slice_index_get(s, i) == 40 {
            match try_pair_at(s, i + 1) {
                Some(p) => {
                    return Some(p);
                },
                None => {},
            }
        }
        i += 1;
    }
    None
}

/// Reads `digits/digits)` starting at `from`, values above the `u32`
/// range clamped to zero as `str::parse` failures are.
fn try_pair_at(s: &[u8], from: usize) -> (r: Option<(u32, u32)>)
    requires
        from <= s@.len(),
    ensures
        r == spec_try_pair(s@, from as int),
{
    let n = s.len();
    let mut i: usize = from;
    while i < n && is_digit(*vstd::slice::slice_index_get(s, i))
        invariant
            from <= i <= n,
            n == s@.len(),
            forall|k: int| from <= k < i ==> spec_is_digit(#[trigger] s@[k]),
        decreases n - i,
    {
        i += 1;
    }
    proof {
        lemma_run_end(s@, from as int, i as int);
    }
    if i == from || i >= n || *vstd::slice::slice_index_get(s, i) != 47 {
        return None;
    }
    let covered_str = vstd::slice::slice_subrange(s, from, i);
    let mut j: usize = i + 1;
    while j < n && is_digit(*vstd::slice::slice_index_get(s, j))
        invariant
            i + 1 <= j <= n,
            n == s@.len(),
            forall|k: int| i + 1 <= k < j ==> spec_is_digit(#[trigger] s@[k]),
        decreases n - j,
    {
        j += 1;
    }
    proof {
        lemma_run_end(s@, i as int + 1, j as int);
    }
    if j == i + 1 || j >= n || *vstd::slice::slice_index_get(s, j) != 41 {
        return None;
    }
    let total_str = vstd::slice::slice_subrange(s, i + 1, j);
    proof {
        assert(covered_str@ =~= s@.subrange(from as int, i as int));
        assert(total_str@ =~= s@.subrange(i as int + 1, j as int));
    }
    let covered = match parse_u32(covered_str) {
        Some(v) => v,
        None => 0,
    };
    let total = match parse_u32(total_str) {
        Some(v) => v,
        None => 0,
    };
    Some((covered, total))
}


/// The parser state after some prefix of the document's events.
pub struct CoberturaState {
    pub files: Seq<crate::model::FileCoverageView>,
    pub cur: Option<crate::model::FileCoverageView>,
    pub in_method: bool,
    pub method_name: Option<Seq<char>>,
    pub method_hit: bool,
    pub method_start: Option<u32>,
    pub branch_seen: Seq<(u32, u32)>,
    pub sources: Seq<Seq<char>>,
    pub in_source: bool,
}

/// The branch arms of one first-encountered branch line: `total` arms
/// from index 0, the first `covered` hit, the index saturating rather
/// than overflowing.
pub open spec fn spec_cob_arms(
    branches: Seq<BranchCoverage>,
    ln: u32,
    covered: u32,
    total: u32,
    idx: u32,
    i: int,
) -> (Seq<BranchCoverage>, u32)
    decreases total as int - i,
{
    if i < 0 || i >= total as int {
        (branches, idx)
    } else {
        let b1 = branches.push(
            BranchCoverage {
                line_number: ln,
                branch_index: idx,
                hit_count: if i < covered as int {
                    1u64
                } else {
                    0u64
                },
            },
        );
        let idx1 = if idx == u32::MAX {
            idx
        } else {
            (idx + 1) as u32
        };
        spec_cob_arms(b1, ln, covered, total, idx1, i + 1)
    }
}


/// Emitted branch arms keep every row on line 1 or later.
proof fn lemma_cob_arms_pos(
    branches: Seq<BranchCoverage>,
    ln: u32,
    covered: u32,
    total: u32,
    idx: u32,
    i: int,
)
    requires
        ln >= 1,
        forall|j: int| 0 <= j < branches.len() ==> (#[trigger] branches[j]).line_number >= 1,
    ensures
        forall|j: int|
            0 <= j < spec_cob_arms(branches, ln, covered, total, idx, i).0.len() ==> (
            #[trigger] spec_cob_arms(branches, ln, covered, total, idx, i).0[j]).line_number >= 1,
    decreases total as int - i,
{
    if i < 0 || i >= total as int {
    } else {
        let b1 = branches.push(
            BranchCoverage {
                line_number: ln,
                branch_index: idx,
                hit_count: if i < covered as int {
                    1u64
                } else {
                    0u64
                },
            },
        );
        let idx1 = if idx == u32::MAX {
            idx
        } else {
            (idx + 1) as u32
        };
        assert(forall|j: int| 0 <= j < b1.len() ==> (#[trigger] b1[j]).line_number >= 1);
        lemma_cob_arms_pos(b1, ln, covered, total, idx1, i + 1);
        assert forall|j: int|
            0 <= j < spec_cob_arms(branches, ln, covered, total, idx, i).0.len() implies (
        #[trigger] spec_cob_arms(branches, ln, covered, total, idx, i).0[j]).line_number >= 1 by {
            assert(spec_cob_arms(branches, ln, covered, total, idx, i).0[j] == spec_cob_arms(
                b1,
                ln,
                covered,
                total,
                idx1,
                i + 1,
            ).0[j]);
        }
    }
}

/// Whether every record seen so far, open or flushed, keeps its rows on
/// line 1 or later.
pub open spec fn cobertura_state_positive(st: CoberturaState) -> bool {
    (forall|k: int|
        0 <= k < st.files.len() ==> crate::model::rows_positive(#[trigger] st.files[k])) && (
    match st.cur {
        Some(f) => crate::model::rows_positive(f),
        None => true,
    })
}

/// One event keeps every record's rows on line 1 or later.
#[verifier::rlimit(100)]
proof fn lemma_cobertura_step_pos(st: CoberturaState, ev: crate::xml::XmlEventView)
    requires
        cobertura_state_positive(st),
    ensures
        cobertura_state_positive(spec_cobertura_step(st, ev)),
{
    let st2 = spec_cobertura_step(st, ev);
    match ev {
        crate::xml::XmlEventView::Open { name, attrs, self_closing } => {
            if name == seq![108u8, 105u8, 110u8, 101u8] {
                match st.cur {
                    None => {},
                    Some(f) => match crate::parsers::clover::spec_attr_u32(
                        attrs,
                        seq![110u8, 117u8, 109u8, 98u8, 101u8, 114u8],
                    ) {
                        None => {},
                        Some(ln) => {
                            let hits = crate::parsers::clover::spec_attr_u64_or_zero(
                                attrs,
                                seq![104u8, 105u8, 116u8, 115u8],
                            );
                            crate::parsers::gocover::lemma_insert_max_pos(f.lines, ln, hits);
                            let f1 = crate::model::FileCoverageView {
                                lines: spec_insert_line_max(f.lines, ln, hits),
                                ..f
                            };
                            if ln >= 1 {
                                match crate::xml::spec_attr(attrs, spec_cond_key()) {
                                    None => {},
                                    Some(cond) => match spec_parse_condition(
                                        vstd::utf8::encode_utf8(cond),
                                        0,
                                    ) {
                                        None => {},
                                        Some(p) => {
                                            lemma_cob_arms_pos(f1.branches, ln, p.0, p.1, 0u32, 0);
                                        },
                                    },
                                }
                            }
                        },
                    },
                }
            }
        },
        crate::xml::XmlEventView::Close { name } => {
            if name == seq![99u8, 108u8, 97u8, 115u8, 115u8] {
                match st.cur {
                    Some(f) => {
                        assert forall|k: int|
                            0 <= k < st2.files.len() implies crate::model::rows_positive(
                            #[trigger] st2.files[k],
                        ) by {
                            if k < st.files.len() {
                                assert(st2.files[k] == st.files[k]);
                            } else {
                                assert(st2.files[k] == f);
                            }
                        }
                    },
                    None => {},
                }
            }
        },
        crate::xml::XmlEventView::Text { .. } => {},
    }
}

/// The fold keeps every record's rows on line 1 or later.
proof fn lemma_cobertura_run_pos(st: CoberturaState, evs: Seq<crate::xml::XmlEventView>)
    requires
        cobertura_state_positive(st),
    ensures
        cobertura_state_positive(spec_cobertura_run(st, evs)),
    decreases evs.len(),
{
    if evs.len() == 0 {
    } else {
        lemma_cobertura_step_pos(st, evs[0]);
        lemma_cobertura_run_pos(spec_cobertura_step(st, evs[0]), evs.drop_first());
    }
}

/// Law: every line and branch row a parse emits sits on line 1 or later.
pub proof fn lemma_cobertura_rows_positive(evs: Seq<crate::xml::XmlEventView>)
    ensures
        forall|k: int|
            0 <= k < spec_parse_cobertura(evs).len() ==> crate::model::rows_positive(
                #[trigger] spec_parse_cobertura(evs)[k],
            ),
{
    let init = CoberturaState {
        files: Seq::empty(),
        cur: None,
        in_method: false,
        method_name: None,
        method_hit: false,
        method_start: None,
        branch_seen: Seq::empty(),
        sources: Seq::empty(),
        in_source: false,
    };
    assert(cobertura_state_positive(init));
    lemma_cobertura_run_pos(init, evs);
    let st = spec_cobertura_run(init, evs);
    match st.cur {
        Some(f) => {
            let files = st.files.push(f);
            assert forall|k: int|
                0 <= k < files.len() implies crate::model::rows_positive(
                #[trigger] files[k],
            ) by {
                if k < st.files.len() {
                    assert(files[k] == st.files[k]);
                } else {
                    assert(files[k] == f);
                }
            }
        },
        None => {},
    }
}

/// One document event applied to the parser state.
pub open spec fn spec_cobertura_step(
    st: CoberturaState,
    ev: crate::xml::XmlEventView,
) -> CoberturaState {
    match ev {
        crate::xml::XmlEventView::Open { name, attrs, self_closing } => {
            if name == seq![115u8, 111u8, 117u8, 114u8, 99u8, 101u8] {
                // <source>: a self-closing one has no text to capture.
                if !self_closing {
                    CoberturaState { in_source: true, ..st }
                } else {
                    st
                }
            } else if name == seq![99u8, 108u8, 97u8, 115u8, 115u8] {
                match crate::xml::spec_attr(
                    attrs,
                    seq![102u8, 105u8, 108u8, 101u8, 110u8, 97u8, 109u8, 101u8],
                ) {
                    None => st,
                    Some(filename) => CoberturaState {
                        cur: Some(
                            crate::parsers::lcov::empty_file(
                                spec_resolve_source_path(filename, st.sources),
                            ),
                        ),
                        branch_seen: Seq::empty(),
                        ..st
                    },
                }
            } else if name == seq![109u8, 101u8, 116u8, 104u8, 111u8, 100u8] {
                CoberturaState {
                    in_method: true,
                    method_name: crate::xml::spec_attr(attrs, seq![110u8, 97u8, 109u8, 101u8]),
                    method_hit: false,
                    method_start: None,
                    ..st
                }
            } else if name == seq![108u8, 105u8, 110u8, 101u8] {
                match st.cur {
                    None => st,
                    Some(f) => match crate::parsers::clover::spec_attr_u32(
                        attrs,
                        seq![110u8, 117u8, 109u8, 98u8, 101u8, 114u8],
                    ) {
                        None => st,
                        Some(ln) => {
                            let hits = crate::parsers::clover::spec_attr_u64_or_zero(
                                attrs,
                                seq![104u8, 105u8, 116u8, 115u8],
                            );
                            let is_branch = crate::xml::spec_attr(
                                attrs,
                                seq![98u8, 114u8, 97u8, 110u8, 99u8, 104u8],
                            ) == Some(("true")@);
                            let f1 = crate::model::FileCoverageView {
                                lines: spec_insert_line_max(f.lines, ln, hits),
                                ..f
                            };
                            let st1 = CoberturaState {
                                cur: Some(f1),
                                in_method: st.in_method,
                                method_start: if st.in_method && st.method_start is None {
                                    Some(ln)
                                } else {
                                    st.method_start
                                },
                                method_hit: st.method_hit || (st.in_method && hits > 0),
                                ..st
                            };
                            let seen = crate::parsers::lcov::assoc_u32(
                                st.branch_seen,
                                ln,
                            ) is Some;
                            if is_branch && !seen && ln >= 1 {
                                match crate::xml::spec_attr(attrs, spec_cond_key()) {
                                    None => st1,
                                    Some(cond) => match spec_parse_condition(
                                        vstd::utf8::encode_utf8(cond),
                                        0,
                                    ) {
                                        None => st1,
                                        Some(p) => {
                                            let arms = spec_cob_arms(
                                                f1.branches,
                                                ln,
                                                p.0,
                                                p.1,
                                                0u32,
                                                0,
                                            );
                                            CoberturaState {
                                                cur: Some(
                                                    crate::model::FileCoverageView {
                                                        branches: arms.0,
                                                        ..f1
                                                    },
                                                ),
                                                branch_seen: crate::parsers::lcov::assoc_u32_set(
                                                    st1.branch_seen,
                                                    ln,
                                                    arms.1,
                                                ),
                                                ..st1
                                            }
                                        },
                                    },
                                }
                            } else {
                                st1
                            }
                        },
                    },
                }
            } else {
                st
            }
        },
        crate::xml::XmlEventView::Close { name } => {
            if name == seq![115u8, 111u8, 117u8, 114u8, 99u8, 101u8] {
                CoberturaState { in_source: false, ..st }
            } else if name == seq![99u8, 108u8, 97u8, 115u8, 115u8] {
                match st.cur {
                    Some(f) => CoberturaState { files: st.files.push(f), cur: None, ..st },
                    None => st,
                }
            } else if name == seq![109u8, 101u8, 116u8, 104u8, 111u8, 100u8] {
                if st.in_method {
                    let st1 = match (st.cur, st.method_name) {
                        (Some(f), Some(mname)) => CoberturaState {
                            cur: Some(
                                crate::model::FileCoverageView {
                                    functions: f.functions.push(
                                        crate::model::FunctionCoverageView {
                                            name: mname,
                                            start_line: st.method_start,
                                            end_line: None,
                                            hit_count: if st.method_hit {
                                                1u64
                                            } else {
                                                0u64
                                            },
                                        },
                                    ),
                                    ..f
                                },
                            ),
                            ..st
                        },
                        _ => st,
                    };
                    CoberturaState {
                        in_method: false,
                        method_name: None,
                        method_start: None,
                        ..st1
                    }
                } else {
                    st
                }
            } else {
                st
            }
        },
        crate::xml::XmlEventView::Text { content } => {
            if st.in_source {
                CoberturaState { sources: st.sources.push(content), in_source: false, ..st }
            } else {
                st
            }
        },
    }
}

/// The bytes of `condition-coverage`.
pub open spec fn spec_cond_key() -> Seq<u8> {
    seq![
        99u8,
        111u8,
        110u8,
        100u8,
        105u8,
        116u8,
        105u8,
        111u8,
        110u8,
        45u8,
        99u8,
        111u8,
        118u8,
        101u8,
        114u8,
        97u8,
        103u8,
        101u8,
    ]
}

/// The document's events applied in order.
pub open spec fn spec_cobertura_run(
    st: CoberturaState,
    evs: Seq<crate::xml::XmlEventView>,
) -> CoberturaState
    decreases evs.len(),
{
    if evs.len() == 0 {
        st
    } else {
        spec_cobertura_run(spec_cobertura_step(st, evs[0]), evs.drop_first())
    }
}

/// The file records a Cobertura document parses to: one per `</class>`,
/// an unclosed trailing file flushed at the end.
pub open spec fn spec_parse_cobertura(evs: Seq<crate::xml::XmlEventView>) -> Seq<
    crate::model::FileCoverageView,
> {
    let st = spec_cobertura_run(
        CoberturaState {
            files: Seq::empty(),
            cur: None,
            in_method: false,
            method_name: None,
            method_hit: false,
            method_start: None,
            branch_seen: Seq::empty(),
            sources: Seq::empty(),
            in_source: false,
        },
        evs,
    );
    match st.cur {
        Some(f) => st.files.push(f),
        None => st.files,
    }
}

/// Parse Cobertura XML coverage data from raw bytes. One file record is
/// emitted per `</class>`, an unclosed one at the end of input.
#[verifier::rlimit(100)]
pub fn parse(input: &[u8]) -> (r: Result<CoverageData, CovrsError>)
    ensures
        match spec_xml_events(input@) {
            Some(evs) => r matches Ok(d) && d@ == spec_parse_cobertura(evs) && files_sorted(d@),
            None => r matches Err(e) && e matches CovrsError::Xml { position } && position
                == spec_xml_error_pos(input@),
        },
{
    let events = match read_xml_events(input) {
        Ok(evs) => evs,
        Err(pos) => {
            return Err(CovrsError::Xml { position: pos });
        },
    };
    let ghost all = events.deep_view();
    let ghost init = CoberturaState {
        files: Seq::empty(),
        cur: None,
        in_method: false,
        method_name: None,
        method_hit: false,
        method_start: None,
        branch_seen: Seq::empty(),
        sources: Seq::empty(),
        in_source: false,
    };
    let mut files: Vec<FileCoverage> = Vec::new();
    let mut cur: Option<FileCoverage> = None;
    let mut in_method: bool = false;
    let mut method_name: Option<String> = None;
    let mut method_hit: bool = false;
    let mut method_start: Option<u32> = None;
    let mut branch_seen: Vec<(u32, u32)> = Vec::new();
    let mut sources: Vec<String> = Vec::new();
    let mut in_source: bool = false;
    let n = events.len();
    let mut i: usize = 0;
    proof {
        assert(events.deep_view().len() == events@.len());
        assert(all.skip(0) =~= all);
        assert(files.deep_view() =~= Seq::<crate::model::FileCoverageView>::empty());
        assert(view_sources(&sources) =~= Seq::<Seq<char>>::empty());
    }
    while i < n
        invariant
            n == events@.len() == all.len(),
            events.deep_view() == all,
            Some(all) == spec_xml_events(input@),
            init == (CoberturaState {
                files: Seq::<crate::model::FileCoverageView>::empty(),
                cur: None::<crate::model::FileCoverageView>,
                in_method: false,
                method_name: None::<Seq<char>>,
                method_hit: false,
                method_start: None::<u32>,
                branch_seen: Seq::<(u32, u32)>::empty(),
                sources: Seq::<Seq<char>>::empty(),
                in_source: false,
            }),
            0 <= i <= n,
            files_sorted(files.deep_view()),
            cur matches Some(f) ==> lines_sorted(f@.lines),
            spec_cobertura_run(init, all) == spec_cobertura_run(
                CoberturaState {
                    files: files.deep_view(),
                    cur: crate::parsers::lcov::view_cur(&cur),
                    in_method,
                    method_name: crate::diff::view_current(&method_name),
                    method_hit,
                    method_start,
                    branch_seen: branch_seen@,
                    sources: view_sources(&sources),
                    in_source,
                },
                all.skip(i as int),
            ),
        decreases n - i,
    {
        let ghost st = CoberturaState {
            files: files.deep_view(),
            cur: crate::parsers::lcov::view_cur(&cur),
            in_method,
            method_name: crate::diff::view_current(&method_name),
            method_hit,
            method_start,
            branch_seen: branch_seen@,
            sources: view_sources(&sources),
            in_source,
        };
        proof {
            assert(all.skip(i as int)[0] == all[i as int]);
            assert(all.skip(i as int).drop_first() =~= all.skip(i + 1));
            assert(all[i as int] == events@[i as int]@);
        }
        let ev: &XmlEvent = &events[i];
        match ev {
            XmlEvent::Open { name, attrs, self_closing } => {
                proof {
                    assert(all[i as int] matches crate::xml::XmlEventView::Open {
                        name: nv,
                        attrs: av,
                        ..
                    } ==> nv == name@ && av =~= crate::xml::view_attrs(attrs));
                }
                let source_tag: Vec<u8> = vec![115, 111, 117, 114, 99, 101];
                let class_tag: Vec<u8> = vec![99, 108, 97, 115, 115];
                let method_tag: Vec<u8> = vec![109, 101, 116, 104, 111, 100];
                let line_tag: Vec<u8> = vec![108, 105, 110, 101];
                proof {
                    assert(source_tag@ =~= seq![115u8, 111u8, 117u8, 114u8, 99u8, 101u8]);
                    assert(class_tag@ =~= seq![99u8, 108u8, 97u8, 115u8, 115u8]);
                    assert(method_tag@ =~= seq![109u8, 101u8, 116u8, 104u8, 111u8, 100u8]);
                    assert(line_tag@ =~= seq![108u8, 105u8, 110u8, 101u8]);
                }
                if bytes_eq(name.as_slice(), source_tag.as_slice()) {
                    // A self-closing <source/> has no text content; setting
                    // the flag would capture the next unrelated text node.
                    if !*self_closing {
                        in_source = true;
                    }
                } else if bytes_eq(name.as_slice(), class_tag.as_slice()) {
                    let filename_key: Vec<u8> = vec![102, 105, 108, 101, 110, 97, 109, 101];
                    proof {
                        assert(filename_key@ =~= seq![
                            102u8,
                            105u8,
                            108u8,
                            101u8,
                            110u8,
                            97u8,
                            109u8,
                            101u8,
                        ]);
                    }
                    match get_attr(attrs, filename_key.as_slice()) {
                        None => {},
                        Some(filename) => {
                            let path = resolve_source_path(filename.as_str(), &sources);
                            let f = FileCoverage::new(path);
                            proof {
                                assert(f@.lines =~= Seq::<LineCoverage>::empty());
                            }
                            cur = Some(f);
                            branch_seen = Vec::new();
                        },
                    }
                } else if bytes_eq(name.as_slice(), method_tag.as_slice()) {
                    in_method = true;
                    let name_key: Vec<u8> = vec![110, 97, 109, 101];
                    proof {
                        assert(name_key@ =~= seq![110u8, 97u8, 109u8, 101u8]);
                    }
                    method_name = match get_attr(attrs, name_key.as_slice()) {
                        Some(v) => Some(clone_string(v)),
                        None => None,
                    };
                    method_hit = false;
                    method_start = None;
                } else if bytes_eq(name.as_slice(), line_tag.as_slice()) {
                    if cur.is_some() {
                        let number_key: Vec<u8> = vec![110, 117, 109, 98, 101, 114];
                        let hits_key: Vec<u8> = vec![104, 105, 116, 115];
                        let branch_key: Vec<u8> = vec![98, 114, 97, 110, 99, 104];
                        let cond_key: Vec<u8> = vec![
                            99, 111, 110, 100, 105, 116, 105, 111, 110, 45, 99, 111, 118, 101,
                            114, 97, 103, 101,
                        ];
                        proof {
                            assert(number_key@ =~= seq![110u8, 117u8, 109u8, 98u8, 101u8, 114u8]);
                            assert(hits_key@ =~= seq![104u8, 105u8, 116u8, 115u8]);
                            assert(branch_key@ =~= seq![98u8, 114u8, 97u8, 110u8, 99u8, 104u8]);
                            assert(cond_key@ =~= spec_cond_key());
                        }
                        match crate::parsers::clover::attr_u32(attrs, number_key.as_slice()) {
                            None => {},
                            Some(ln) => {
                                let hits = crate::parsers::clover::attr_u64_or_zero(
                                    attrs,
                                    hits_key.as_slice(),
                                );
                                let is_branch: bool = match get_attr(attrs, branch_key.as_slice()) {
                                    Some(v) => str_eq(v.as_str(), "true"),
                                    None => false,
                                };
                                proof {
                                    assert(is_branch == (crate::xml::spec_attr(
                                        crate::xml::view_attrs(attrs),
                                        seq![98u8, 114u8, 97u8, 110u8, 99u8, 104u8],
                                    ) == Some(("true")@)));
                                }
                                let f_opt = cur;
                                cur = None;
                                let mut f = match f_opt {
                                    Some(f) => f,
                                    None => unreached(),
                                };
                                let ghost f0 = f@;
                                proof {
                                    lemma_insert_max_sorted(f@.lines, ln, hits);
                                }
                                insert_line_max_exec(&mut f.lines, ln, hits);
                                let ghost f1 = crate::model::FileCoverageView {
                                    lines: spec_insert_line_max(f0.lines, ln, hits),
                                    ..f0
                                };
                                proof {
                                    assert(f@ == f1);
                                }
                                if in_method {
                                    if method_start.is_none() {
                                        method_start = Some(ln);
                                    }
                                    if hits > 0 {
                                        method_hit = true;
                                    }
                                }
                                // Record branch arms only on the first
                                // encounter of this line.
                                let seen = match crate::parsers::lcov::assoc_u32_lookup(
                                    &branch_seen,
                                    ln,
                                ) {
                                    Some(_) => true,
                                    None => false,
                                };
                                if is_branch && !seen && ln >= 1 {
                                    match get_attr(attrs, cond_key.as_slice()) {
                                        None => {},
                                        Some(cond) => {
                                            match parse_condition_coverage(
                                                cond.as_str().as_bytes(),
                                            ) {
                                                None => {},
                                                Some((covered, total)) => {
                                                    let mut idx: u32 = 0;
                                                    let mut bi: u32 = 0;
                                                    let ghost base = f.branches@;
                                                    while bi < total
                                                        invariant
                                                            0 <= bi <= total,
                                                            f.path@ == f1.path,
                                                            f.lines@ == f1.lines,
                                                            f.functions.deep_view()
                                                                == f1.functions,
                                                            spec_cob_arms(
                                                                base,
                                                                ln,
                                                                covered,
                                                                total,
                                                                0u32,
                                                                0,
                                                            ) == spec_cob_arms(
                                                                f.branches@,
                                                                ln,
                                                                covered,
                                                                total,
                                                                idx,
                                                                bi as int,
                                                            ),
                                                        decreases total - bi,
                                                    {
                                                        f.branches.push(
                                                            BranchCoverage {
                                                                line_number: ln,
                                                                branch_index: idx,
                                                                hit_count: if bi < covered {
                                                                    1
                                                                } else {
                                                                    0
                                                                },
                                                            },
                                                        );
                                                        idx = if idx == u32::MAX {
                                                            idx
                                                        } else {
                                                            idx + 1
                                                        };
                                                        bi += 1;
                                                    }
                                                    proof {
                                                        assert(spec_cob_arms(
                                                            base,
                                                            ln,
                                                            covered,
                                                            total,
                                                            0u32,
                                                            0,
                                                        ) == (f.branches@, idx));
                                                        assert(base == f1.branches);
                                                    }
                                                    crate::parsers::lcov::assoc_u32_set_pub(
                                                        &mut branch_seen,
                                                        ln,
                                                        idx,
                                                    );
                                                },
                                            }
                                        },
                                    }
                                }
                                cur = Some(f);
                            },
                        }
                    }
                }
            },
            XmlEvent::Close { name } => {
                let source_tag: Vec<u8> = vec![115, 111, 117, 114, 99, 101];
                let class_tag: Vec<u8> = vec![99, 108, 97, 115, 115];
                let method_tag: Vec<u8> = vec![109, 101, 116, 104, 111, 100];
                proof {
                    assert(source_tag@ =~= seq![115u8, 111u8, 117u8, 114u8, 99u8, 101u8]);
                    assert(class_tag@ =~= seq![99u8, 108u8, 97u8, 115u8, 115u8]);
                    assert(method_tag@ =~= seq![109u8, 101u8, 116u8, 104u8, 111u8, 100u8]);
                }
                if bytes_eq(name.as_slice(), source_tag.as_slice()) {
                    in_source = false;
                } else if bytes_eq(name.as_slice(), class_tag.as_slice()) {
                    let done = cur;
                    cur = None;
                    match done {
                        Some(f) => {
                            let ghost fsv = files.deep_view();
                            let ghost fv = f@;
                            files.push(f);
                            proof {
                                assert(files.deep_view() =~= fsv.push(fv)) by {
                                    assert(forall|k: int|
                                        0 <= k < fsv.len() ==> #[trigger] files.deep_view()[k]
                                            == fsv[k]);
                                    assert(files.deep_view()[fsv.len() as int] == fv);
                                }
                                assert forall|k: int|
                                    0 <= k < files.deep_view().len() implies lines_sorted(
                                    (#[trigger] files.deep_view()[k]).lines,
                                ) by {
                                    if k < fsv.len() {
                                        assert(files.deep_view()[k] == fsv[k]);
                                    } else {
                                        assert(files.deep_view()[k] == fv);
                                    }
                                }
                            }
                        },
                        None => {},
                    }
                } else if bytes_eq(name.as_slice(), method_tag.as_slice()) {
                    if in_method {
                        let taken = method_name;
                        method_name = None;
                        match (&mut cur, taken) {
                            (Some(f), Some(mname)) => {
                                let ghost before = f.functions.deep_view();
                                let ghost mname_v = mname@;
                                f.functions.push(
                                    FunctionCoverage {
                                        name: mname,
                                        start_line: method_start,
                                        end_line: None,
                                        hit_count: if method_hit {
                                            1
                                        } else {
                                            0
                                        },
                                    },
                                );
                                proof {
                                    assert(f.functions.deep_view() =~= before.push(
                                        crate::model::FunctionCoverageView {
                                            name: mname_v,
                                            start_line: method_start,
                                            end_line: None,
                                            hit_count: if method_hit {
                                                1u64
                                            } else {
                                                0u64
                                            },
                                        },
                                    )) by {
                                        assert(forall|k: int|
                                            0 <= k < before.len()
                                                ==> #[trigger] f.functions.deep_view()[k]
                                                == before[k]);
                                        assert(f.functions.deep_view()[before.len() as int]
                                            == f.functions@[before.len() as int]@);
                                    }
                                }
                            },
                            _ => {},
                        }
                        in_method = false;
                        method_start = None;
                    }
                }
            },
            XmlEvent::Text { content } => {
                if in_source {
                    let ghost sv0 = view_sources(&sources);
                    sources.push(clone_string(content));
                    in_source = false;
                    proof {
                        assert(view_sources(&sources) =~= sv0.push(content@));
                    }
                }
            },
        }
        proof {
            let st2 = CoberturaState {
                files: files.deep_view(),
                cur: crate::parsers::lcov::view_cur(&cur),
                in_method,
                method_name: crate::diff::view_current(&method_name),
                method_hit,
                method_start,
                branch_seen: branch_seen@,
                sources: view_sources(&sources),
                in_source,
            };
            let sp = spec_cobertura_step(st, all[i as int]);
            assert(st2.files == sp.files);
            assert(st2.sources == sp.sources);
            assert(st2.branch_seen == sp.branch_seen);
            assert(st2.cur == sp.cur);
            assert(st2 == sp);
        }
        i += 1;
    }
    proof {
        assert(all.skip(n as int) =~= Seq::<crate::xml::XmlEventView>::empty());
    }
    let done = cur;
    match done {
        Some(f) => {
            let ghost fsv = files.deep_view();
            let ghost fv = f@;
            files.push(f);
            proof {
                assert(files.deep_view() =~= fsv.push(fv)) by {
                    assert(forall|k: int|
                        0 <= k < fsv.len() ==> #[trigger] files.deep_view()[k] == fsv[k]);
                    assert(files.deep_view()[fsv.len() as int] == fv);
                }
                assert forall|k: int|
                    0 <= k < files.deep_view().len() implies lines_sorted(
                    (#[trigger] files.deep_view()[k]).lines,
                ) by {
                    if k < fsv.len() {
                        assert(files.deep_view()[k] == fsv[k]);
                    } else {
                        assert(files.deep_view()[k] == fv);
                    }
                }
            }
        },
        None => {},
    }
    Ok(CoverageData { files })
}

} // verus!
