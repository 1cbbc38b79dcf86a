//! Parser for Clover XML coverage reports: `<coverage clover="…">` with
//! `<file name path>` elements whose `<line num count type …/>` children
//! carry the rows. A `stmt` line is one line row; a `method` line is a
//! line row plus a function row named by its `signature`; a `cond` line
//! with `truecount`/`falsecount` additionally emits two branch arms per
//! condition — arm `2i` hit when `i < truecount`, arm `2i+1` hit when
//! `i < falsecount` — under a running per-line arm index. Line rows are
//! kept sorted by line number, later rows with the same number following
//! earlier ones.

use vstd::prelude::*;
use vstd::string::{StringExecFns, StringSliceAdditionalSpecFns};
use crate::error::CovrsError;
use crate::model::{
    BranchCoverage, CoverageData, FileCoverage, FileCoverageView, FunctionCoverage,
    FunctionCoverageView, LineCoverage,
};
use crate::text::{spec_parse_uint, spec_u64_string, parse_u32, parse_u64, str_eq, u64_to_string};
use crate::xml::{
    XmlEvent, XmlEventView, spec_xml_events, spec_xml_error_pos, read_xml_events, spec_attr,
    get_attr, view_attrs,
};
use crate::parsers::lcov::{assoc_u32, assoc_u32_set, empty_file};

verus! {

/// The parser state after some prefix of the document's events.
pub struct CloverState {
    pub files: Seq<FileCoverageView>,
    pub cur: Option<FileCoverageView>,
    pub branch_counts: Seq<(u32, u32)>,
}

/// A number attribute parsed, `str::parse`-style.
pub open spec fn spec_attr_u32(attrs: Seq<(Seq<u8>, Seq<char>)>, key: Seq<u8>) -> Option<u32> {
    match spec_attr(attrs, key) {
        None => None,
        Some(v) => match spec_parse_uint(vstd::utf8::encode_utf8(v), u32::MAX as nat) {
            None => None,
            Some(n) => Some(n as u32),
        },
    }
}

/// A count attribute parsed, zero when absent or unreadable.
pub open spec fn spec_attr_u64_or_zero(attrs: Seq<(Seq<u8>, Seq<char>)>, key: Seq<u8>) -> u64 {
    match spec_attr(attrs, key) {
        None => 0u64,
        Some(v) => match spec_parse_uint(vstd::utf8::encode_utf8(v), u64::MAX as nat) {
            None => 0u64,
            Some(n) => n as u64,
        },
    }
}

/// A line row inserted in line-number order, after any earlier row with
/// the same number.
pub open spec fn spec_insert_line_stable(rows: Seq<LineCoverage>, lc: LineCoverage) -> Seq<
    LineCoverage,
>
    decreases rows.len(),
{
    if lc.line_number == 0 {
        rows
    } else if rows.len() == 0 {
        seq![lc]
    } else if lc.line_number < rows[0].line_number {
        seq![lc] + rows
    } else {
        seq![rows[0]] + spec_insert_line_stable(rows.drop_first(), lc)
    }
}

/// The default name of a method line without a signature.
pub open spec fn spec_anon_name(ln: u32) -> Seq<char> {
    ("<anonymous@")@ + spec_u64_string(ln as nat) + (">")@
}

/// The branch arms of one `cond` line: two per condition, under the
/// running per-line index, saturating rather than overflowing it.
pub open spec fn spec_cond_arms(
    branches: Seq<BranchCoverage>,
    ln: u32,
    idx: u32,
    tc: u32,
    fc: u32,
    i: int,
) -> (Seq<BranchCoverage>, u32)
    decreases (if tc >= fc {
        tc as int
    } else {
        fc as int
    }) - i,
{
    let nc: int = if tc >= fc {
        tc as int
    } else {
        fc as int
    };
    if i < 0 || i >= nc {
        (branches, idx)
    } else {
        let b1 = branches.push(
            BranchCoverage {
                line_number: ln,
                branch_index: idx,
                hit_count: if i < tc {
                    1u64
                } else {
                    0u64
                },
            },
        );
        let idx1 = if idx == u32::MAX {
            idx
        } else {
            (idx + 1) as u32
        };
        let b2 = b1.push(
            BranchCoverage {
                line_number: ln,
                branch_index: idx1,
                hit_count: if i < fc {
                    1u64
                } else {
                    0u64
                },
            },
        );
        let idx2 = if idx1 == u32::MAX {
            idx1
        } else {
            (idx1 + 1) as u32
        };
        spec_cond_arms(b2, ln, idx2, tc, fc, i + 1)
    }
}

/// One document event applied to the parser state.
pub open spec fn spec_clover_step(st: CloverState, ev: XmlEventView) -> CloverState {
    match ev {
        XmlEventView::Open { name, attrs, self_closing: _ } => {
            if name == seq![102u8, 105u8, 108u8, 101u8] {
                // <file>: prefer the absolute `path` over `name`.
                let path = match spec_attr(attrs, seq![112u8, 97u8, 116u8, 104u8]) {
                    Some(p) => p,
                    None => match spec_attr(attrs, seq![110u8, 97u8, 109u8, 101u8]) {
                        Some(p) => p,
                        None => Seq::empty(),
                    },
                };
                CloverState { cur: Some(empty_file(path)), branch_counts: Seq::empty(), ..st }
            } else if name == seq![108u8, 105u8, 110u8, 101u8] {
                match st.cur {
                    None => st,
                    Some(f) => match spec_attr_u32(attrs, seq![110u8, 117u8, 109u8]) {
                        None => st,
                        Some(ln) => {
                            let count = spec_attr_u64_or_zero(
                                attrs,
                                seq![99u8, 111u8, 117u8, 110u8, 116u8],
                            );
                            let f1 = FileCoverageView {
                                lines: spec_insert_line_stable(
                                    f.lines,
                                    LineCoverage { line_number: ln, hit_count: count },
                                ),
                                ..f
                            };
                            let ty = spec_attr(attrs, seq![116u8, 121u8, 112u8, 101u8]);
                            if ty == Some(("method")@) {
                                let fname = match spec_attr(
                                    attrs,
                                    seq![
                                        115u8,
                                        105u8,
                                        103u8,
                                        110u8,
                                        97u8,
                                        116u8,
                                        117u8,
                                        114u8,
                                        101u8,
                                    ],
                                ) {
                                    Some(sig) => sig,
                                    None => spec_anon_name(ln),
                                };
                                CloverState {
                                    cur: Some(
                                        FileCoverageView {
                                            functions: f1.functions.push(
                                                FunctionCoverageView {
                                                    name: fname,
                                                    start_line: Some(ln),
                                                    end_line: None,
                                                    hit_count: count,
                                                },
                                            ),
                                            ..f1
                                        },
                                    ),
                                    ..st
                                }
                            } else if ty == Some(("cond")@) && ln >= 1 {
                                let tc = match spec_attr_u32(
                                    attrs,
                                    seq![116u8, 114u8, 117u8, 101u8, 99u8, 111u8, 117u8, 110u8, 116u8],
                                ) {
                                    Some(v) => v,
                                    None => 0u32,
                                };
                                let fc = match spec_attr_u32(
                                    attrs,
                                    seq![
                                        102u8,
                                        97u8,
                                        108u8,
                                        115u8,
                                        101u8,
                                        99u8,
                                        111u8,
                                        117u8,
                                        110u8,
                                        116u8,
                                    ],
                                ) {
                                    Some(v) => v,
                                    None => 0u32,
                                };
                                let idx0 = match assoc_u32(st.branch_counts, ln) {
                                    Some(v) => v,
                                    None => 0u32,
                                };
                                let arms = spec_cond_arms(f1.branches, ln, idx0, tc, fc, 0);
                                CloverState {
                                    cur: Some(FileCoverageView { branches: arms.0, ..f1 }),
                                    branch_counts: assoc_u32_set(st.branch_counts, ln, arms.1),
                                    ..st
                                }
                            } else {
                                CloverState { cur: Some(f1), ..st }
                            }
                        },
                    },
                }
            } else {
                st
            }
        },
        XmlEventView::Close { name } => {
            if name == seq![102u8, 105u8, 108u8, 101u8] {
                match st.cur {
                    Some(f) => CloverState { files: st.files.push(f), cur: None, ..st },
                    None => st,
                }
            } else {
                st
            }
        },
        XmlEventView::Text { .. } => st,
    }
}


/// A stable insertion keeps every row on line 1 or later.
pub proof fn lemma_insert_stable_pos(rows: Seq<LineCoverage>, lc: LineCoverage)
    requires
        forall|j: int| 0 <= j < rows.len() ==> (#[trigger] rows[j]).line_number >= 1,
    ensures
        forall|j: int|
            0 <= j < spec_insert_line_stable(rows, lc).len() ==> (
            #[trigger] spec_insert_line_stable(rows, lc)[j]).line_number >= 1,
    decreases rows.len(),
{
    let out = spec_insert_line_stable(rows, lc);
    if lc.line_number == 0 {
        assert(out == rows);
    } else if rows.len() == 0 {
        assert(out =~= seq![lc]);
    } else if lc.line_number < rows[0].line_number {
        assert(out =~= seq![lc] + rows);
        assert(forall|j: int| 1 <= j < out.len() ==> #[trigger] out[j] == rows[j - 1]);
    } else {
        let rest = rows.drop_first();
        assert(forall|k: int| 0 <= k < rest.len() ==> #[trigger] rest[k] == rows[k + 1]);
        lemma_insert_stable_pos(rest, lc);
        let out2 = spec_insert_line_stable(rest, lc);
        assert(out =~= seq![rows[0]] + out2);
        assert(forall|j: int| 1 <= j < out.len() ==> #[trigger] out[j] == out2[j - 1]);
    }
}

/// Emitted condition arms keep every branch row on line 1 or later.
proof fn lemma_cond_arms_pos(
    branches: Seq<BranchCoverage>,
    ln: u32,
    idx: u32,
    tc: u32,
    fc: u32,
    i: int,
)
    requires
        ln >= 1,
        forall|j: int| 0 <= j < branches.len() ==> (#[trigger] branches[j]).line_number >= 1,
    ensures
        forall|j: int|
            0 <= j < spec_cond_arms(branches, ln, idx, tc, fc, i).0.len() ==> (
            #[trigger] spec_cond_arms(branches, ln, idx, tc, fc, i).0[j]).line_number >= 1,
    decreases (if tc >= fc {
        tc as int
    } else {
        fc as int
    }) - i,
{
    let nc: int = if tc >= fc {
        tc as int
    } else {
        fc as int
    };
    if i < 0 || i >= nc {
    } else {
        let b1 = branches.push(
            BranchCoverage {
                line_number: ln,
                branch_index: idx,
                hit_count: if i < tc {
                    1u64
                } else {
                    0u64
                },
            },
        );
        let idx1 = if idx == u32::MAX {
            idx
        } else {
            (idx + 1) as u32
        };
        let b2 = b1.push(
            BranchCoverage {
                line_number: ln,
                branch_index: idx1,
                hit_count: if i < fc {
                    1u64
                } else {
                    0u64
                },
            },
        );
        let idx2 = if idx1 == u32::MAX {
            idx1
        } else {
            (idx1 + 1) as u32
        };
        assert(forall|j: int|
            0 <= j < b2.len() ==> (#[trigger] b2[j]).line_number >= 1);
        lemma_cond_arms_pos(b2, ln, idx2, tc, fc, i + 1);
        assert forall|j: int|
            0 <= j < spec_cond_arms(branches, ln, idx, tc, fc, i).0.len() implies (
        #[trigger] spec_cond_arms(branches, ln, idx, tc, fc, i).0[j]).line_number >= 1 by {
            assert(spec_cond_arms(branches, ln, idx, tc, fc, i).0[j] == spec_cond_arms(
                b2,
                ln,
                idx2,
                tc,
                fc,
                i + 1,
            ).0[j]);
        }
    }
}

/// Whether every record seen so far, open or flushed, keeps its rows on
/// line 1 or later.
pub open spec fn clover_state_positive(st: CloverState) -> bool {
    (forall|k: int|
        0 <= k < st.files.len() ==> crate::model::rows_positive(#[trigger] st.files[k])) && (
    match st.cur {
        Some(f) => crate::model::rows_positive(f),
        None => true,
    })
}

/// One event keeps every record's rows on line 1 or later.
#[verifier::rlimit(100)]
proof fn lemma_clover_step_pos(st: CloverState, ev: XmlEventView)
    requires
        clover_state_positive(st),
    ensures
        clover_state_positive(spec_clover_step(st, ev)),
{
    let st2 = spec_clover_step(st, ev);
    match ev {
        XmlEventView::Open { name, attrs, self_closing } => {
            if name == seq![108u8, 105u8, 110u8, 101u8] {
                match st.cur {
                    None => {},
                    Some(f) => match spec_attr_u32(attrs, seq![110u8, 117u8, 109u8]) {
                        None => {},
                        Some(ln) => {
                            let count = spec_attr_u64_or_zero(
                                attrs,
                                seq![99u8, 111u8, 117u8, 110u8, 116u8],
                            );
                            lemma_insert_stable_pos(
                                f.lines,
                                LineCoverage { line_number: ln, hit_count: count },
                            );
                            let f1 = FileCoverageView {
                                lines: spec_insert_line_stable(
                                    f.lines,
                                    LineCoverage { line_number: ln, hit_count: count },
                                ),
                                ..f
                            };
                            let ty = spec_attr(attrs, seq![116u8, 121u8, 112u8, 101u8]);
                            if ty == Some(("method")@) {
                            } else if ty == Some(("cond")@) && ln >= 1 {
                                let idx0 = match assoc_u32(st.branch_counts, ln) {
                                    Some(v) => v,
                                    None => 0u32,
                                };
                                lemma_cond_arms_pos(f1.branches, ln, idx0, 0, 0, 0);
                                let tc = match spec_attr_u32(
                                    attrs,
                                    seq![116u8, 114u8, 117u8, 101u8, 99u8, 111u8, 117u8, 110u8, 116u8],
                                ) {
                                    Some(v) => v,
                                    None => 0u32,
                                };
                                let fc = match spec_attr_u32(
                                    attrs,
                                    seq![
                                        102u8,
                                        97u8,
                                        108u8,
                                        115u8,
                                        101u8,
                                        99u8,
                                        111u8,
                                        117u8,
                                        110u8,
                                        116u8,
                                    ],
                                ) {
                                    Some(v) => v,
                                    None => 0u32,
                                };
                                lemma_cond_arms_pos(f1.branches, ln, idx0, tc, fc, 0);
                            }
                        },
                    },
                }
            }
        },
        XmlEventView::Close { name } => {
            if name == seq![102u8, 105u8, 108u8, 101u8] {
                match st.cur {
                    Some(f) => {
                        assert(forall|k: int|
                            0 <= k < st.files.len() ==> #[trigger] st2.files[k] == st.files[k]);
                        assert(st2.files[st.files.len() as int] == f);
                        assert forall|k: int|
                            0 <= k < st2.files.len() implies crate::model::rows_positive(
                            #[trigger] st2.files[k],
                        ) by {
                            if k < st.files.len() {
                                assert(st2.files[k] == st.files[k]);
                            }
                        }
                    },
                    None => {},
                }
            }
        },
        XmlEventView::Text { .. } => {},
    }
}

/// The fold keeps every record's rows on line 1 or later.
proof fn lemma_clover_run_pos(st: CloverState, evs: Seq<XmlEventView>)
    requires
        clover_state_positive(st),
    ensures
        clover_state_positive(spec_clover_run(st, evs)),
    decreases evs.len(),
{
    if evs.len() == 0 {
    } else {
        lemma_clover_step_pos(st, evs[0]);
        lemma_clover_run_pos(spec_clover_step(st, evs[0]), evs.drop_first());
    }
}

/// Law: every line and branch row a parse emits sits on line 1 or later.
pub proof fn lemma_clover_rows_positive(evs: Seq<XmlEventView>)
    ensures
        forall|k: int|
            0 <= k < spec_parse_clover(evs).len() ==> crate::model::rows_positive(
                #[trigger] spec_parse_clover(evs)[k],
            ),
{
    let init = CloverState { files: Seq::empty(), cur: None, branch_counts: Seq::empty() };
    assert(clover_state_positive(init));
    lemma_clover_run_pos(init, evs);
    let st = spec_clover_run(init, evs);
    match st.cur {
        Some(f) => {
            let files = st.files.push(f);
            assert forall|k: int|
                0 <= k < files.len() implies crate::model::rows_positive(
                #[trigger] files[k],
            ) by {
                if k < st.files.len() {
                    assert(files[k] == st.files[k]);
                } else {
                    assert(files[k] == f);
                }
            }
        },
        None => {},
    }
}

/// The document's events applied in order.
pub open spec fn spec_clover_run(st: CloverState, evs: Seq<XmlEventView>) -> CloverState
    decreases evs.len(),
{
    if evs.len() == 0 {
        st
    } else {
        spec_clover_run(spec_clover_step(st, evs[0]), evs.drop_first())
    }
}

/// The file records a Clover document parses to: one per `</file>`, an
/// unclosed trailing file flushed at the end.
pub open spec fn spec_parse_clover(evs: Seq<XmlEventView>) -> Seq<FileCoverageView> {
    let st = spec_clover_run(
        CloverState { files: Seq::empty(), cur: None, branch_counts: Seq::empty() },
        evs,
    );
    match st.cur {
        Some(f) => st.files.push(f),
        None => st.files,
    }
}


// ---------------------------------------------------------------------------
// Executable parser
// ---------------------------------------------------------------------------

/// `spec_insert_line_stable` inserts before the first row with a larger
/// line number.
pub proof fn lemma_insert_line_stable_at(rows: Seq<LineCoverage>, lc: LineCoverage, j: int)
    requires
        lc.line_number >= 1,
        0 <= j <= rows.len(),
        forall|k: int| 0 <= k < j ==> (#[trigger] rows[k]).line_number <= lc.line_number,
        j < rows.len() ==> rows[j].line_number > lc.line_number,
    ensures
        spec_insert_line_stable(rows, lc) =~= rows.subrange(0, j) + seq![lc] + rows.subrange(
            j,
            rows.len() as int,
        ),
    decreases rows.len(),
{
    if rows.len() == 0 {
        assert(rows.subrange(0, 0) =~= Seq::<LineCoverage>::empty());
    } else if lc.line_number < rows[0].line_number {
        assert(j == 0);
        assert(rows.subrange(0, 0) =~= Seq::<LineCoverage>::empty());
        assert(rows.subrange(0, rows.len() as int) =~= rows);
    } else {
        let rest = rows.drop_first();
        assert(forall|k: int| 0 <= k < rest.len() ==> #[trigger] rest[k] == rows[k + 1]);
        assert(j > 0);
        lemma_insert_line_stable_at(rest, lc, j - 1);
        assert(seq![rows[0]] + (rest.subrange(0, j - 1) + seq![lc] + rest.subrange(
            j - 1,
            rest.len() as int,
        )) =~= rows.subrange(0, j) + seq![lc] + rows.subrange(j, rows.len() as int));
    }
}

fn insert_line_stable_exec(rows: &mut Vec<LineCoverage>, lc: LineCoverage)
    ensures
        final(rows)@ == spec_insert_line_stable(old(rows)@, lc),
{
    if lc.line_number == 0 {
        return ;
    }
    let ghost orig = rows@;
    let n = rows.len();
    let mut j: usize = 0;
    while j < n
        invariant
            lc.line_number >= 1,
            n == rows@.len(),
            rows@ == orig,
            orig == old(rows)@,
            0 <= j <= n,
            forall|k: int| 0 <= k < j ==> (#[trigger] orig[k]).line_number <= lc.line_number,
        decreases n - j,
    {
        if rows[j].line_number > lc.line_number {
            rows.insert(j, lc);
            proof {
                lemma_insert_line_stable_at(orig, lc, j as int);
                assert(rows@ =~= orig.subrange(0, j as int) + seq![lc] + orig.subrange(
                    j as int,
                    orig.len() as int,
                ));
            }
            return ;
        }
        j += 1;
    }
    rows.push(lc);
    proof {
        lemma_insert_line_stable_at(orig, lc, n as int);
        assert(orig.subrange(0, n as int) =~= orig);
        assert(orig.subrange(n as int, n as int) =~= Seq::<LineCoverage>::empty());
        assert(orig + seq![lc] + Seq::<LineCoverage>::empty() =~= orig.push(lc));
    }
}

/// A number attribute parsed, `str::parse`-style.
pub fn attr_u32(attrs: &Vec<(Vec<u8>, String)>, key: &[u8]) -> (r: Option<u32>)
    ensures
        r == spec_attr_u32(view_attrs(attrs), key@),
{
    match get_attr(attrs, key) {
        None => None,
        Some(v) => parse_u32(v.as_str().as_bytes()),
    }
}

/// A count attribute parsed, zero when absent or unreadable.
pub fn attr_u64_or_zero(attrs: &Vec<(Vec<u8>, String)>, key: &[u8]) -> (r: u64)
    ensures
        r == spec_attr_u64_or_zero(view_attrs(attrs), key@),
{
    match get_attr(attrs, key) {
        None => 0,
        Some(v) => match parse_u64(v.as_str().as_bytes()) {
            Some(n) => n,
            None => 0,
        },
    }
}

/// Parse Clover XML coverage data from raw bytes.
#[verifier::rlimit(100)]
pub fn parse(input: &[u8]) -> (r: Result<CoverageData, CovrsError>)
    ensures
        match spec_xml_events(input@) {
            Some(evs) => r matches Ok(d) && d@ == spec_parse_clover(evs),
            None => r matches Err(e) && e matches CovrsError::Xml { position } && position
                == spec_xml_error_pos(input@),
        },
{
    let events = match read_xml_events(input) {
        Ok(evs) => evs,
        Err(pos) => {
            return Err(CovrsError::Xml { position: pos });
        },
    };
    let ghost all = events.deep_view();
    let ghost init = CloverState { files: Seq::empty(), cur: None, branch_counts: Seq::empty() };
    let mut files: Vec<FileCoverage> = Vec::new();
    let mut cur: Option<FileCoverage> = None;
    let mut branch_counts: Vec<(u32, u32)> = Vec::new();
    let n = events.len();
    let mut i: usize = 0;
    proof {
        assert(events.deep_view().len() == events@.len());
        assert(all.skip(0) =~= all);
        assert(files.deep_view() =~= Seq::<FileCoverageView>::empty());
    }
    while i < n
        invariant
            n == events@.len() == all.len(),
            events.deep_view() == all,
            Some(all) == spec_xml_events(input@),
            init == (CloverState {
                files: Seq::<FileCoverageView>::empty(),
                cur: None::<FileCoverageView>,
                branch_counts: Seq::<(u32, u32)>::empty(),
            }),
            0 <= i <= n,
            spec_clover_run(init, all) == spec_clover_run(
                CloverState {
                    files: files.deep_view(),
                    cur: crate::parsers::lcov::view_cur(&cur),
                    branch_counts: branch_counts@,
                },
                all.skip(i as int),
            ),
        decreases n - i,
    {
        let ghost st = CloverState {
            files: files.deep_view(),
            cur: crate::parsers::lcov::view_cur(&cur),
            branch_counts: branch_counts@,
        };
        proof {
            assert(all.skip(i as int)[0] == all[i as int]);
            assert(all.skip(i as int).drop_first() =~= all.skip(i + 1));
            assert(all[i as int] == events@[i as int]@);
        }
        let ev: &XmlEvent = &events[i];
        match ev {
            XmlEvent::Open { name, attrs, self_closing: _ } => {
                proof {
                    assert(all[i as int] matches XmlEventView::Open { name: nv, attrs: av, .. }
                        ==> nv == name@ && av =~= view_attrs(attrs));
                }
                let file_tag: Vec<u8> = vec![102, 105, 108, 101];
                let line_tag: Vec<u8> = vec![108, 105, 110, 101];
                proof {
                    assert(file_tag@ =~= seq![102u8, 105u8, 108u8, 101u8]);
                    assert(line_tag@ =~= seq![108u8, 105u8, 110u8, 101u8]);
                }
                if crate::text::bytes_eq(name.as_slice(), file_tag.as_slice()) {
                    let path_key: Vec<u8> = vec![112, 97, 116, 104];
                    let name_key: Vec<u8> = vec![110, 97, 109, 101];
                    proof {
                        assert(path_key@ =~= seq![112u8, 97u8, 116u8, 104u8]);
                        assert(name_key@ =~= seq![110u8, 97u8, 109u8, 101u8]);
                    }
                    let path: String = match get_attr(attrs, path_key.as_slice()) {
                        Some(p) => crate::diff::clone_string(p),
                        None => match get_attr(attrs, name_key.as_slice()) {
                            Some(p) => crate::diff::clone_string(p),
                            None => String::new(),
                        },
                    };
                    cur = Some(FileCoverage::new(path));
                    branch_counts = Vec::new();
                    proof {
                        assert(crate::parsers::lcov::view_cur(&cur) == spec_clover_step(
                            st,
                            all[i as int],
                        ).cur);
                    }
                } else if crate::text::bytes_eq(name.as_slice(), line_tag.as_slice()) {
                    if cur.is_some() {
                        let num_key: Vec<u8> = vec![110, 117, 109];
                        let count_key: Vec<u8> = vec![99, 111, 117, 110, 116];
                        let type_key: Vec<u8> = vec![116, 121, 112, 101];
                        let sig_key: Vec<u8> = vec![115, 105, 103, 110, 97, 116, 117, 114, 101];
                        let tc_key: Vec<u8> = vec![116, 114, 117, 101, 99, 111, 117, 110, 116];
                        let fc_key: Vec<u8> = vec![102, 97, 108, 115, 101, 99, 111, 117, 110, 116];
                        proof {
                            assert(num_key@ =~= seq![110u8, 117u8, 109u8]);
                            assert(count_key@ =~= seq![99u8, 111u8, 117u8, 110u8, 116u8]);
                            assert(type_key@ =~= seq![116u8, 121u8, 112u8, 101u8]);
                            assert(sig_key@ =~= seq![
                                115u8,
                                105u8,
                                103u8,
                                110u8,
                                97u8,
                                116u8,
                                117u8,
                                114u8,
                                101u8,
                            ]);
                            assert(tc_key@ =~= seq![
                                116u8,
                                114u8,
                                117u8,
                                101u8,
                                99u8,
                                111u8,
                                117u8,
                                110u8,
                                116u8,
                            ]);
                            assert(fc_key@ =~= seq![
                                102u8,
                                97u8,
                                108u8,
                                115u8,
                                101u8,
                                99u8,
                                111u8,
                                117u8,
                                110u8,
                                116u8,
                            ]);
                        }
                        match attr_u32(attrs, num_key.as_slice()) {
                            None => {},
                            Some(ln) => {
                                let count = attr_u64_or_zero(attrs, count_key.as_slice());
                                let f_opt = cur;
                                cur = None;
                                let mut f = match f_opt {
                                    Some(f) => f,
                                    None => unreached(),
                                };
                                let ghost f0 = f@;
                                insert_line_stable_exec(
                                    &mut f.lines,
                                    LineCoverage { line_number: ln, hit_count: count },
                                );
                                let ghost f1 = FileCoverageView {
                                    lines: spec_insert_line_stable(
                                        f0.lines,
                                        LineCoverage { line_number: ln, hit_count: count },
                                    ),
                                    ..f0
                                };
                                proof {
                                    assert(f@ == f1);
                                }
                                let is_method: bool = match get_attr(attrs, type_key.as_slice()) {
                                    Some(v) => str_eq(v.as_str(), "method"),
                                    None => false,
                                };
                                let is_cond: bool = match get_attr(attrs, type_key.as_slice()) {
                                    Some(v) => str_eq(v.as_str(), "cond"),
                                    None => false,
                                };
                                proof {
                                    let ty = spec_attr(view_attrs(attrs), type_key@);
                                    assert(is_method == (ty == Some(("method")@)));
                                    assert(is_cond == (ty == Some(("cond")@)));
                                }
                                proof {
                                    let sg = spec_attr(view_attrs(attrs), sig_key@);
                                    assert(sg == spec_attr(view_attrs(attrs), seq![
                                        115u8,
                                        105u8,
                                        103u8,
                                        110u8,
                                        97u8,
                                        116u8,
                                        117u8,
                                        114u8,
                                        101u8,
                                    ]));
                                }
                                if is_method {
                                    let fname: String = match get_attr(attrs, sig_key.as_slice()) {
                                        Some(sig) => crate::diff::clone_string(sig),
                                        None => {
                                            let mut nm = ("<anonymous@").to_owned();
                                            let digits = u64_to_string(ln as u64);
                                            nm.append(digits.as_str());
                                            nm.append(">");
                                            nm
                                        },
                                    };
                                    let ghost before = f.functions.deep_view();
                                    let ghost fname_v = fname@;
                                    f.functions.push(
                                        FunctionCoverage {
                                            name: fname,
                                            start_line: Some(ln),
                                            end_line: None,
                                            hit_count: count,
                                        },
                                    );
                                    proof {
                                        assert(f.functions.deep_view() =~= before.push(
                                            FunctionCoverageView {
                                                name: fname_v,
                                                start_line: Some(ln),
                                                end_line: None,
                                                hit_count: count,
                                            },
                                        )) by {
                                            assert(forall|k: int|
                                                0 <= k < before.len()
                                                    ==> #[trigger] f.functions.deep_view()[k]
                                                    == before[k]);
                                            assert(f.functions.deep_view()[before.len() as int]
                                                == f.functions@[before.len() as int]@);
                                        }
                                        let fname_spec = match spec_attr(
                                            view_attrs(attrs),
                                            sig_key@,
                                        ) {
                                            Some(sig) => sig,
                                            None => spec_anon_name(ln),
                                        };
                                        assert(fname_v == fname_spec);
                                        assert(f@ == (FileCoverageView {
                                            functions: f1.functions.push(
                                                FunctionCoverageView {
                                                    name: fname_spec,
                                                    start_line: Some(ln),
                                                    end_line: None,
                                                    hit_count: count,
                                                },
                                            ),
                                            ..f1
                                        }));
                                    }
                                } else if is_cond && ln >= 1 {
                                    let tc = match attr_u32(attrs, tc_key.as_slice()) {
                                        Some(v) => v,
                                        None => 0,
                                    };
                                    let fc = match attr_u32(attrs, fc_key.as_slice()) {
                                        Some(v) => v,
                                        None => 0,
                                    };
                                    let idx0 = match crate::parsers::lcov::assoc_u32_lookup(
                                        &branch_counts,
                                        ln,
                                    ) {
                                        Some(v) => v,
                                        None => 0,
                                    };
                                    let nc: u32 = if tc >= fc {
                                        tc
                                    } else {
                                        fc
                                    };
                                    let mut idx = idx0;
                                    let mut ci: u32 = 0;
                                    let ghost base = f.branches@;
                                    while ci < nc
                                        invariant
                                            0 <= ci <= nc,
                                            nc == (if tc >= fc {
                                                tc
                                            } else {
                                                fc
                                            }),
                                            f.path@ == f1.path,
                                            f.lines@ == f1.lines,
                                            f.functions.deep_view() == f1.functions,
                                            spec_cond_arms(base, ln, idx0, tc, fc, 0)
                                                == spec_cond_arms(
                                                f.branches@,
                                                ln,
                                                idx,
                                                tc,
                                                fc,
                                                ci as int,
                                            ),
                                        decreases nc - ci,
                                    {
                                        f.branches.push(
                                            BranchCoverage {
                                                line_number: ln,
                                                branch_index: idx,
                                                hit_count: if ci < tc {
                                                    1
                                                } else {
                                                    0
                                                },
                                            },
                                        );
                                        idx = if idx == u32::MAX {
                                            idx
                                        } else {
                                            idx + 1
                                        };
                                        f.branches.push(
                                            BranchCoverage {
                                                line_number: ln,
                                                branch_index: idx,
                                                hit_count: if ci < fc {
                                                    1
                                                } else {
                                                    0
                                                },
                                            },
                                        );
                                        idx = if idx == u32::MAX {
                                            idx
                                        } else {
                                            idx + 1
                                        };
                                        ci += 1;
                                    }
                                    proof {
                                        assert(spec_cond_arms(base, ln, idx0, tc, fc, 0) == (
                                        f.branches@,
                                        idx,
                                        ));
                                    }
                                    crate::parsers::lcov::assoc_u32_set_pub(
                                        &mut branch_counts,
                                        ln,
                                        idx,
                                    );
                                    proof {
                                        let armsx = spec_cond_arms(f1.branches, ln, idx0, tc, fc, 0);
                                        assert(base == f1.branches);
                                        assert(f@ == (FileCoverageView { branches: armsx.0, ..f1 }));
                                        assert(branch_counts@ == assoc_u32_set(
                                            st.branch_counts,
                                            ln,
                                            armsx.1,
                                        ));
                                        assert(spec_clover_step(st, all[i as int]).cur == Some(
                                            FileCoverageView { branches: armsx.0, ..f1 },
                                        ));
                                    }
                                }
                                cur = Some(f);
                                proof {
                                    if !is_method && !is_cond {
                                        assert(f1 == (FileCoverageView {
                                            lines: spec_insert_line_stable(
                                                f0.lines,
                                                LineCoverage { line_number: ln, hit_count: count },
                                            ),
                                            ..f0
                                        }));
                                        assert(crate::parsers::lcov::view_cur(&cur) == Some(f1));
                                        assert(spec_clover_step(st, all[i as int]).cur == Some(
                                            f1,
                                        ));
                                    }
                                }
                            },
                        }
                        proof {
                            assert(crate::parsers::lcov::view_cur(&cur) == spec_clover_step(
                                st,
                                all[i as int],
                            ).cur);
                        }
                    }
                }
            },
            XmlEvent::Close { name } => {
                let file_tag: Vec<u8> = vec![102, 105, 108, 101];
                proof {
                    assert(file_tag@ =~= seq![102u8, 105u8, 108u8, 101u8]);
                }
                if crate::text::bytes_eq(name.as_slice(), file_tag.as_slice()) {
                    let done = cur;
                    cur = None;
                    match done {
                        Some(f) => {
                            let ghost fsv = files.deep_view();
                            let ghost fv = f@;
                            files.push(f);
                            proof {
                                assert(files.deep_view() =~= fsv.push(fv)) by {
                                    assert(forall|k: int|
                                        0 <= k < fsv.len() ==> #[trigger] files.deep_view()[k]
                                            == fsv[k]);
                                    assert(files.deep_view()[fsv.len() as int] == fv);
                                }
                            }
                        },
                        None => {},
                    }
                }
            },
            XmlEvent::Text { .. } => {},
        }
        proof {
            let st2 = CloverState {
                files: files.deep_view(),
                cur: crate::parsers::lcov::view_cur(&cur),
                branch_counts: branch_counts@,
            };
            let sp = spec_clover_step(st, all[i as int]);
            assert(st2.files == sp.files);
            assert(st2.branch_counts == sp.branch_counts);
            assert(st2.cur == sp.cur);
            assert(st2 == sp);
        }
        i += 1;
    }
    proof {
        assert(all.skip(n as int) =~= Seq::<XmlEventView>::empty());
    }
    let done = cur;
    match done {
        Some(f) => {
            let ghost fsv = files.deep_view();
            let ghost fv = f@;
            files.push(f);
            proof {
                assert(files.deep_view() =~= fsv.push(fv)) by {
                    assert(forall|k: int|
                        0 <= k < fsv.len() ==> #[trigger] files.deep_view()[k] == fsv[k]);
                    assert(files.deep_view()[fsv.len() as int] == fv);
                }
            }
        },
        None => {},
    }
    Ok(CoverageData { files })
}


/// A slice of the branch-density invariant: the arms emitted for one
/// `cond` line extend the row list with consecutive indices, two per
/// condition, continuing the per-line counter it was given.
pub proof fn lemma_cond_arms_dense(
    branches: Seq<BranchCoverage>,
    ln: u32,
    idx: u32,
    tc: u32,
    fc: u32,
    i: int,
)
    requires
        0 <= i <= (if tc >= fc {
            tc as int
        } else {
            fc as int
        }),
        idx + 2 * ((if tc >= fc {
            tc as int
        } else {
            fc as int
        }) - i) <= u32::MAX,
    ensures
        ({
            let nc: int = if tc >= fc {
                tc as int
            } else {
                fc as int
            };
            let out = spec_cond_arms(branches, ln, idx, tc, fc, i);
            &&& out.1 == idx + 2 * (nc - i)
            &&& out.0.len() == branches.len() + 2 * (nc - i)
            &&& forall|k: int|
                0 <= k < 2 * (nc - i) ==> (#[trigger] out.0[branches.len() + k]).branch_index
                    == idx + k && out.0[branches.len() + k].line_number == ln
            &&& forall|k: int| 0 <= k < branches.len() ==> #[trigger] out.0[k] == branches[k]
        }),
    decreases (if tc >= fc {
        tc as int
    } else {
        fc as int
    }) - i,
{
    let nc: int = if tc >= fc {
        tc as int
    } else {
        fc as int
    };
    if i < nc {
        let b1 = branches.push(
            BranchCoverage {
                line_number: ln,
                branch_index: idx,
                hit_count: if i < tc {
                    1u64
                } else {
                    0u64
                },
            },
        );
        let idx1 = (idx + 1) as u32;
        let b2 = b1.push(
            BranchCoverage {
                line_number: ln,
                branch_index: idx1,
                hit_count: if i < fc {
                    1u64
                } else {
                    0u64
                },
            },
        );
        let idx2 = (idx1 + 1) as u32;
        lemma_cond_arms_dense(b2, ln, idx2, tc, fc, i + 1);
        let out = spec_cond_arms(branches, ln, idx, tc, fc, i);
        assert(out == spec_cond_arms(b2, ln, idx2, tc, fc, i + 1));
        assert forall|k: int| 0 <= k < 2 * (nc - i) implies (#[trigger] out.0[branches.len()
            + k]).branch_index == idx + k && out.0[branches.len() + k].line_number == ln by {
            if k == 0 {
                assert(out.0[branches.len() as int] == b2[branches.len() as int]);
                assert(b2[branches.len() as int] == b1[branches.len() as int]);
            } else if k == 1 {
                assert(out.0[branches.len() as int + 1] == b2[branches.len() as int + 1]);
            } else {
                assert(out.0[b2.len() + (k - 2)].branch_index == idx2 + (k - 2));
                assert(b2.len() + (k - 2) == branches.len() + k);
            }
        }
        assert forall|k: int| 0 <= k < branches.len() implies #[trigger] out.0[k] == branches[k] by {
            assert(out.0[k] == b2[k]);
            assert(b2[k] == b1[k]);
        }
    }
}

} // verus!
