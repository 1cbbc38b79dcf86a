//! The relational coverage store: named reports owning line, branch and
//! function rows grouped per source file, with union semantics across
//! reports — a line is covered when any stored report hit it.
//!
//! The store keeps the same relational shape as its on-disk schema: a
//! report table, a shared source-file table purged of orphans, and
//! coverage rows keyed per report, file and line.

use vstd::prelude::*;
use crate::error::CovrsError;
use crate::model::{
    BranchCoverage, CoverageData, FileCoverageView, FunctionCoverage, FunctionCoverageView,
    LineCoverage, LineDetail, ReportInfo, sorted_strict,
};
use crate::text::str_eq;
use crate::diff::clone_string;

verus! {

/// One source file's rows within one report.
#[derive(Debug)]
pub struct StoredFile {
    pub path: String,
    pub lines: Vec<LineCoverage>,
    pub branches: Vec<BranchCoverage>,
    pub functions: Vec<FunctionCoverage>,
}

/// Mathematical image of a `StoredFile`.
pub struct StoredFileView {
    pub path: Seq<char>,
    pub lines: Seq<LineCoverage>,
    pub branches: Seq<BranchCoverage>,
    pub functions: Seq<FunctionCoverageView>,
}

impl View for StoredFile {
    type V = StoredFileView;

    open spec fn view(&self) -> StoredFileView {
        StoredFileView {
            path: self.path@,
            lines: self.lines@,
            branches: self.branches@,
            functions: self.functions.deep_view(),
        }
    }
}

impl DeepView for StoredFile {
    type V = StoredFileView;

    open spec fn deep_view(&self) -> StoredFileView {
        self.view()
    }
}

/// One ingested report and the rows it owns.
#[derive(Debug)]
pub struct StoredReport {
    pub id: u64,
    pub name: String,
    pub source_format: String,
    pub source_file: Option<String>,
    pub created_at: String,
    pub files: Vec<StoredFile>,
}

/// Mathematical image of a `StoredReport`.
pub struct StoredReportView {
    pub id: u64,
    pub name: Seq<char>,
    pub source_format: Seq<char>,
    pub source_file: Option<Seq<char>>,
    pub created_at: Seq<char>,
    pub files: Seq<StoredFileView>,
}

impl View for StoredReport {
    type V = StoredReportView;

    open spec fn view(&self) -> StoredReportView {
        StoredReportView {
            id: self.id,
            name: self.name@,
            source_format: self.source_format@,
            source_file: self.source_file.deep_view(),
            created_at: self.created_at@,
            files: self.files.deep_view(),
        }
    }
}

impl DeepView for StoredReport {
    type V = StoredReportView;

    open spec fn deep_view(&self) -> StoredReportView {
        self.view()
    }
}

/// The coverage store: every ingested report, and the shared source-file
/// table.
#[derive(Debug)]
pub struct Store {
    pub reports: Vec<StoredReport>,
    pub source_files: Vec<String>,
    pub next_id: u64,
}

/// Mathematical image of the store.
pub struct StoreView {
    pub reports: Seq<StoredReportView>,
    pub source_files: Seq<Seq<char>>,
    pub next_id: u64,
}

impl View for Store {
    type V = StoreView;

    open spec fn view(&self) -> StoreView {
        StoreView {
            reports: self.reports.deep_view(),
            source_files: self.source_files.deep_view(),
            next_id: self.next_id,
        }
    }
}

// ---------------------------------------------------------------------------
// Row lookup (union semantics)
// ---------------------------------------------------------------------------

/// The first file entry of the report with the given path.
pub open spec fn report_file(r: StoredReportView, path: Seq<char>) -> Option<StoredFileView>
    decreases r.files.len(),
{
    if r.files.len() == 0 {
        None
    } else if r.files[0].path == path {
        Some(r.files[0])
    } else {
        report_file(
            StoredReportView { files: r.files.drop_first(), ..r },
            path,
        )
    }
}

/// The hit count the row list records for `ln`, if any.
pub open spec fn line_hit_in_rows(rows: Seq<LineCoverage>, ln: u32) -> Option<u64>
    decreases rows.len(),
{
    if rows.len() == 0 {
        None
    } else if rows[0].line_number == ln {
        Some(rows[0].hit_count)
    } else {
        line_hit_in_rows(rows.drop_first(), ln)
    }
}

/// The hit count one report records for a file's line, if any.
pub open spec fn report_line_hit(r: StoredReportView, path: Seq<char>, ln: u32) -> Option<u64> {
    match report_file(r, path) {
        None => None,
        Some(f) => line_hit_in_rows(f.lines, ln),
    }
}

/// Union of two per-report answers: absent rows stay absent, and where
/// both answer the larger count wins.
pub open spec fn combine_hits(a: Option<u64>, b: Option<u64>) -> Option<u64> {
    match (a, b) {
        (None, x) => x,
        (x, None) => x,
        (Some(x), Some(y)) => if x >= y {
            Some(x)
        } else {
            Some(y)
        },
    }
}

/// The effective hit count of a file's line across all reports: present
/// when any report holds the line, with the maximum recorded count.
pub open spec fn eff_line_hit(reports: Seq<StoredReportView>, path: Seq<char>, ln: u32) -> Option<
    u64,
>
    decreases reports.len(),
{
    if reports.len() == 0 {
        None
    } else {
        combine_hits(
            report_line_hit(reports[0], path, ln),
            eff_line_hit(reports.drop_first(), path, ln),
        )
    }
}

/// A file's line is instrumentable when some report holds a row for it.
pub open spec fn is_instrumented(reports: Seq<StoredReportView>, path: Seq<char>, ln: u32) -> bool {
    eff_line_hit(reports, path, ln) is Some
}

/// Whether some report holds any coverage row that references `path`.
pub open spec fn path_referenced(reports: Seq<StoredReportView>, path: Seq<char>) -> bool {
    exists|i: int, j: int|
        0 <= i < reports.len() && 0 <= j < (#[trigger] reports[i]).files.len() && (
        #[trigger] reports[i].files[j]).path == path && (reports[i].files[j].lines.len() > 0
            || reports[i].files[j].branches.len() > 0 || reports[i].files[j].functions.len() > 0)
}

/// Whether a report with this name is stored.
pub open spec fn has_report_named(reports: Seq<StoredReportView>, name: Seq<char>) -> bool {
    exists|i: int| 0 <= i < reports.len() && (#[trigger] reports[i]).name == name
}

/// The stored reports whose name is not `name`, in order.
pub open spec fn remove_named(reports: Seq<StoredReportView>, name: Seq<char>) -> Seq<
    StoredReportView,
>
    decreases reports.len(),
{
    if reports.len() == 0 {
        Seq::empty()
    } else if reports[0].name == name {
        remove_named(reports.drop_first(), name)
    } else {
        seq![reports[0]] + remove_named(reports.drop_first(), name)
    }
}

// ---------------------------------------------------------------------------
// Normalizing parsed data into stored rows
// ---------------------------------------------------------------------------

/// A line row upserted: the first row with the same line number is
/// replaced, otherwise the row is appended.
pub open spec fn upsert_line(rows: Seq<LineCoverage>, lc: LineCoverage) -> Seq<LineCoverage>
    decreases rows.len(),
{
    if rows.len() == 0 {
        seq![lc]
    } else if rows[0].line_number == lc.line_number {
        seq![lc] + rows.drop_first()
    } else {
        seq![rows[0]] + upsert_line(rows.drop_first(), lc)
    }
}

pub open spec fn upsert_lines(rows: Seq<LineCoverage>, add: Seq<LineCoverage>) -> Seq<LineCoverage>
    decreases add.len(),
{
    if add.len() == 0 {
        rows
    } else {
        upsert_lines(upsert_line(rows, add[0]), add.drop_first())
    }
}

/// A branch row upserted, keyed by line number and branch index.
pub open spec fn upsert_branch(rows: Seq<BranchCoverage>, bc: BranchCoverage) -> Seq<BranchCoverage>
    decreases rows.len(),
{
    if rows.len() == 0 {
        seq![bc]
    } else if rows[0].line_number == bc.line_number && rows[0].branch_index == bc.branch_index {
        seq![bc] + rows.drop_first()
    } else {
        seq![rows[0]] + upsert_branch(rows.drop_first(), bc)
    }
}

pub open spec fn upsert_branches(rows: Seq<BranchCoverage>, add: Seq<BranchCoverage>) -> Seq<
    BranchCoverage,
>
    decreases add.len(),
{
    if add.len() == 0 {
        rows
    } else {
        upsert_branches(upsert_branch(rows, add[0]), add.drop_first())
    }
}

/// A function row upserted, keyed by name and start line; the new hit
/// count and end line replace the old ones.
pub open spec fn upsert_function(
    rows: Seq<FunctionCoverageView>,
    fc: FunctionCoverageView,
) -> Seq<FunctionCoverageView>
    decreases rows.len(),
{
    if rows.len() == 0 {
        seq![fc]
    } else if rows[0].name == fc.name && rows[0].start_line == fc.start_line {
        seq![fc] + rows.drop_first()
    } else {
        seq![rows[0]] + upsert_function(rows.drop_first(), fc)
    }
}

pub open spec fn upsert_functions(
    rows: Seq<FunctionCoverageView>,
    add: Seq<FunctionCoverageView>,
) -> Seq<FunctionCoverageView>
    decreases add.len(),
{
    if add.len() == 0 {
        rows
    } else {
        upsert_functions(upsert_function(rows, add[0]), add.drop_first())
    }
}

/// One parsed file record folded into the report's file entries: rows are
/// upserted into the first entry with the same path, or into a fresh entry
/// at the end.
pub open spec fn add_file(files: Seq<StoredFileView>, fc: FileCoverageView) -> Seq<StoredFileView>
    decreases files.len(),
{
    if files.len() == 0 {
        seq![
            StoredFileView {
                path: fc.path,
                lines: upsert_lines(Seq::empty(), fc.lines),
                branches: upsert_branches(Seq::empty(), fc.branches),
                functions: upsert_functions(Seq::empty(), fc.functions),
            },
        ]
    } else if files[0].path == fc.path {
        seq![
            StoredFileView {
                path: files[0].path,
                lines: upsert_lines(files[0].lines, fc.lines),
                branches: upsert_branches(files[0].branches, fc.branches),
                functions: upsert_functions(files[0].functions, fc.functions),
            },
        ] + files.drop_first()
    } else {
        seq![files[0]] + add_file(files.drop_first(), fc)
    }
}

/// A whole parse result folded into file entries.
pub open spec fn build_files(files: Seq<StoredFileView>, data: Seq<FileCoverageView>) -> Seq<
    StoredFileView,
>
    decreases data.len(),
{
    if data.len() == 0 {
        files
    } else {
        build_files(add_file(files, data[0]), data.drop_first())
    }
}

/// The source-file table extended with any path of `files` it lacks, in
/// first-appearance order.
pub open spec fn extend_paths(table: Seq<Seq<char>>, files: Seq<StoredFileView>) -> Seq<Seq<char>>
    decreases files.len(),
{
    if files.len() == 0 {
        table
    } else {
        let t = if table.contains(files[0].path) {
            table
        } else {
            table.push(files[0].path)
        };
        extend_paths(t, files.drop_first())
    }
}


// ---------------------------------------------------------------------------
// Executable upserts
// ---------------------------------------------------------------------------

/// `upsert_line` replaces the first row with the same line number, or
/// appends when there is none.
proof fn lemma_upsert_line(rows: Seq<LineCoverage>, lc: LineCoverage, j: int)
    requires
        0 <= j <= rows.len(),
        forall|k: int| 0 <= k < j ==> (#[trigger] rows[k]).line_number != lc.line_number,
        j < rows.len() ==> rows[j].line_number == lc.line_number,
    ensures
        j < rows.len() ==> upsert_line(rows, lc) =~= rows.update(j, lc),
        j == rows.len() ==> upsert_line(rows, lc) =~= rows.push(lc),
    decreases rows.len(),
{
    if rows.len() == 0 {
    } else if rows[0].line_number == lc.line_number {
        assert(j == 0);
        assert(seq![lc] + rows.drop_first() =~= rows.update(0, lc));
    } else {
        let rest = rows.drop_first();
        assert(forall|k: int| 0 <= k < rest.len() ==> #[trigger] rest[k] == rows[k + 1]);
        assert(j > 0);
        lemma_upsert_line(rest, lc, j - 1);
        if j < rows.len() {
            assert(seq![rows[0]] + rest.update(j - 1, lc) =~= rows.update(j, lc));
        } else {
            assert(seq![rows[0]] + rest.push(lc) =~= rows.push(lc));
        }
    }
}

fn upsert_line_exec(rows: &mut Vec<LineCoverage>, lc: LineCoverage)
    ensures
        final(rows)@ == upsert_line(old(rows)@, lc),
{
    let ghost orig = rows@;
    let n = rows.len();
    let mut j: usize = 0;
    while j < n
        invariant
            n == rows@.len(),
            0 <= j <= n,
            rows@ == orig,
            orig == old(rows)@,
            forall|k: int| 0 <= k < j ==> (#[trigger] orig[k]).line_number != lc.line_number,
        decreases n - j,
    {
        if rows[j].line_number == lc.line_number {
            rows.remove(j);
            rows.insert(j, lc);
            proof {
                lemma_upsert_line(orig, lc, j as int);
                assert(rows@ =~= orig.update(j as int, lc));
            }
            return ;
        }
        j += 1;
    }
    rows.push(lc);
    proof {
        lemma_upsert_line(orig, lc, n as int);
    }
}

fn upsert_lines_exec(rows: &mut Vec<LineCoverage>, add: &Vec<LineCoverage>)
    ensures
        final(rows)@ == upsert_lines(old(rows)@, add@),
{
    let ghost orig = old(rows)@;
    let n = add.len();
    let mut i: usize = 0;
    proof {
        assert(add@.skip(0) =~= add@);
    }
    while i < n
        invariant
            n == add@.len(),
            0 <= i <= n,
            upsert_lines(orig, add@) == upsert_lines(rows@, add@.skip(i as int)),
        decreases n - i,
    {
        let ghost before = rows@;
        proof {
            assert(add@.skip(i as int)[0] == add@[i as int]);
            assert(add@.skip(i as int).drop_first() =~= add@.skip(i + 1));
        }
        upsert_line_exec(rows, add[i]);
        i += 1;
    }
    proof {
        assert(add@.skip(n as int) =~= Seq::<LineCoverage>::empty());
    }
}

/// `upsert_branch` replaces the first row with the same line number and
/// branch index, or appends when there is none.
proof fn lemma_upsert_branch(rows: Seq<BranchCoverage>, bc: BranchCoverage, j: int)
    requires
        0 <= j <= rows.len(),
        forall|k: int|
            0 <= k < j ==> !((#[trigger] rows[k]).line_number == bc.line_number
                && rows[k].branch_index == bc.branch_index),
        j < rows.len() ==> rows[j].line_number == bc.line_number && rows[j].branch_index
            == bc.branch_index,
    ensures
        j < rows.len() ==> upsert_branch(rows, bc) =~= rows.update(j, bc),
        j == rows.len() ==> upsert_branch(rows, bc) =~= rows.push(bc),
    decreases rows.len(),
{
    if rows.len() == 0 {
    } else if rows[0].line_number == bc.line_number && rows[0].branch_index == bc.branch_index {
        assert(j == 0);
        assert(seq![bc] + rows.drop_first() =~= rows.update(0, bc));
    } else {
        let rest = rows.drop_first();
        assert(forall|k: int| 0 <= k < rest.len() ==> #[trigger] rest[k] == rows[k + 1]);
        assert(j > 0);
        lemma_upsert_branch(rest, bc, j - 1);
        if j < rows.len() {
            assert(seq![rows[0]] + rest.update(j - 1, bc) =~= rows.update(j, bc));
        } else {
            assert(seq![rows[0]] + rest.push(bc) =~= rows.push(bc));
        }
    }
}

fn upsert_branch_exec(rows: &mut Vec<BranchCoverage>, bc: BranchCoverage)
    ensures
        final(rows)@ == upsert_branch(old(rows)@, bc),
{
    let ghost orig = rows@;
    let n = rows.len();
    let mut j: usize = 0;
    while j < n
        invariant
            n == rows@.len(),
            0 <= j <= n,
            rows@ == orig,
            orig == old(rows)@,
            forall|k: int|
                0 <= k < j ==> !((#[trigger] orig[k]).line_number == bc.line_number
                    && orig[k].branch_index == bc.branch_index),
        decreases n - j,
    {
        if rows[j].line_number == bc.line_number && rows[j].branch_index == bc.branch_index {
            rows.remove(j);
            rows.insert(j, bc);
            proof {
                lemma_upsert_branch(orig, bc, j as int);
                assert(rows@ =~= orig.update(j as int, bc));
            }
            return ;
        }
        j += 1;
    }
    rows.push(bc);
    proof {
        lemma_upsert_branch(orig, bc, n as int);
    }
}

fn upsert_branches_exec(rows: &mut Vec<BranchCoverage>, add: &Vec<BranchCoverage>)
    ensures
        final(rows)@ == upsert_branches(old(rows)@, add@),
{
    let ghost orig = old(rows)@;
    let n = add.len();
    let mut i: usize = 0;
    proof {
        assert(add@.skip(0) =~= add@);
    }
    while i < n
        invariant
            n == add@.len(),
            0 <= i <= n,
            upsert_branches(orig, add@) == upsert_branches(rows@, add@.skip(i as int)),
        decreases n - i,
    {
        proof {
            assert(add@.skip(i as int)[0] == add@[i as int]);
            assert(add@.skip(i as int).drop_first() =~= add@.skip(i + 1));
        }
        upsert_branch_exec(rows, add[i]);
        i += 1;
    }
    proof {
        assert(add@.skip(n as int) =~= Seq::<BranchCoverage>::empty());
    }
}

/// `upsert_function` replaces the first row with the same name and start
/// line, or appends when there is none.
proof fn lemma_upsert_function(rows: Seq<FunctionCoverageView>, fc: FunctionCoverageView, j: int)
    requires
        0 <= j <= rows.len(),
        forall|k: int|
            0 <= k < j ==> !((#[trigger] rows[k]).name == fc.name && rows[k].start_line
                == fc.start_line),
        j < rows.len() ==> rows[j].name == fc.name && rows[j].start_line == fc.start_line,
    ensures
        j < rows.len() ==> upsert_function(rows, fc) =~= rows.update(j, fc),
        j == rows.len() ==> upsert_function(rows, fc) =~= rows.push(fc),
    decreases rows.len(),
{
    if rows.len() == 0 {
    } else if rows[0].name == fc.name && rows[0].start_line == fc.start_line {
        assert(j == 0);
        assert(seq![fc] + rows.drop_first() =~= rows.update(0, fc));
    } else {
        let rest = rows.drop_first();
        assert(forall|k: int| 0 <= k < rest.len() ==> #[trigger] rest[k] == rows[k + 1]);
        assert(j > 0);
        lemma_upsert_function(rest, fc, j - 1);
        if j < rows.len() {
            assert(seq![rows[0]] + rest.update(j - 1, fc) =~= rows.update(j, fc));
        } else {
            assert(seq![rows[0]] + rest.push(fc) =~= rows.push(fc));
        }
    }
}

/// Whether two optional line numbers agree.
fn opt_u32_eq(a: &Option<u32>, b: &Option<u32>) -> (r: bool)
    ensures
        r == (*a == *b),
{
    match (a, b) {
        (None, None) => true,
        (Some(x), Some(y)) => x == y,
        _ => false,
    }
}

/// A copy of the function row with the same fields.
fn clone_function(f: &FunctionCoverage) -> (r: FunctionCoverage)
    ensures
        r@ == f@,
{
    FunctionCoverage {
        name: clone_string(&f.name),
        start_line: f.start_line,
        end_line: f.end_line,
        hit_count: f.hit_count,
    }
}

fn upsert_function_exec(rows: &mut Vec<FunctionCoverage>, fc: &FunctionCoverage)
    ensures
        final(rows).deep_view() == upsert_function(old(rows).deep_view(), fc@),
{
    let ghost orig = rows.deep_view();
    let n = rows.len();
    let mut j: usize = 0;
    while j < n
        invariant
            n == rows@.len(),
            0 <= j <= n,
            rows.deep_view() == orig,
            orig == old(rows).deep_view(),
            orig.len() == n,
            forall|k: int|
                0 <= k < j ==> !((#[trigger] orig[k]).name == fc@.name && orig[k].start_line
                    == fc@.start_line),
        decreases n - j,
    {
        proof {
            assert(orig[j as int] == rows@[j as int]@);
        }
        if str_eq(rows[j].name.as_str(), fc.name.as_str()) && opt_u32_eq(
            &rows[j].start_line,
            &fc.start_line,
        ) {
            rows.remove(j);
            rows.insert(j, clone_function(fc));
            proof {
                lemma_upsert_function(orig, fc@, j as int);
                assert(rows.deep_view() =~= orig.update(j as int, fc@));
            }
            return ;
        }
        j += 1;
    }
    rows.push(clone_function(fc));
    proof {
        lemma_upsert_function(orig, fc@, n as int);
        assert(rows.deep_view() =~= orig.push(fc@));
    }
}

fn upsert_functions_exec(rows: &mut Vec<FunctionCoverage>, add: &Vec<FunctionCoverage>)
    ensures
        final(rows).deep_view() == upsert_functions(old(rows).deep_view(), add.deep_view()),
{
    let ghost orig = old(rows).deep_view();
    let ghost addv = add.deep_view();
    let n = add.len();
    let mut i: usize = 0;
    proof {
        assert(addv.skip(0) =~= addv);
    }
    while i < n
        invariant
            n == add@.len(),
            addv == add.deep_view(),
            addv.len() == n,
            0 <= i <= n,
            upsert_functions(orig, addv) == upsert_functions(rows.deep_view(), addv.skip(i as int)),
        decreases n - i,
    {
        proof {
            assert(addv.skip(i as int)[0] == addv[i as int]);
            assert(addv.skip(i as int).drop_first() =~= addv.skip(i + 1));
            assert(addv[i as int] == add@[i as int]@);
        }
        upsert_function_exec(rows, &add[i]);
        i += 1;
    }
    proof {
        assert(addv.skip(n as int) =~= Seq::<FunctionCoverageView>::empty());
    }
}


// ---------------------------------------------------------------------------
// Building file entries
// ---------------------------------------------------------------------------

/// `add_file` merges into the first entry with the same path, or appends a
/// fresh entry when there is none.
proof fn lemma_add_file(files: Seq<StoredFileView>, fc: FileCoverageView, j: int)
    requires
        0 <= j <= files.len(),
        forall|k: int| 0 <= k < j ==> (#[trigger] files[k]).path != fc.path,
        j < files.len() ==> files[j].path == fc.path,
    ensures
        j < files.len() ==> add_file(files, fc) =~= files.update(
            j,
            StoredFileView {
                path: files[j].path,
                lines: upsert_lines(files[j].lines, fc.lines),
                branches: upsert_branches(files[j].branches, fc.branches),
                functions: upsert_functions(files[j].functions, fc.functions),
            },
        ),
        j == files.len() ==> add_file(files, fc) =~= files.push(
            StoredFileView {
                path: fc.path,
                lines: upsert_lines(Seq::empty(), fc.lines),
                branches: upsert_branches(Seq::empty(), fc.branches),
                functions: upsert_functions(Seq::empty(), fc.functions),
            },
        ),
    decreases files.len(),
{
    if files.len() == 0 {
    } else if files[0].path == fc.path {
        assert(j == 0);
        assert(seq![
            StoredFileView {
                path: files[0].path,
                lines: upsert_lines(files[0].lines, fc.lines),
                branches: upsert_branches(files[0].branches, fc.branches),
                functions: upsert_functions(files[0].functions, fc.functions),
            },
        ] + files.drop_first() =~= files.update(
            0,
            StoredFileView {
                path: files[0].path,
                lines: upsert_lines(files[0].lines, fc.lines),
                branches: upsert_branches(files[0].branches, fc.branches),
                functions: upsert_functions(files[0].functions, fc.functions),
            },
        ));
    } else {
        let rest = files.drop_first();
        assert(forall|k: int| 0 <= k < rest.len() ==> #[trigger] rest[k] == files[k + 1]);
        assert(j > 0);
        lemma_add_file(rest, fc, j - 1);
        if j < files.len() {
            assert(seq![files[0]] + rest.update(
                j - 1,
                StoredFileView {
                    path: files[j].path,
                    lines: upsert_lines(files[j].lines, fc.lines),
                    branches: upsert_branches(files[j].branches, fc.branches),
                    functions: upsert_functions(files[j].functions, fc.functions),
                },
            ) =~= files.update(
                j,
                StoredFileView {
                    path: files[j].path,
                    lines: upsert_lines(files[j].lines, fc.lines),
                    branches: upsert_branches(files[j].branches, fc.branches),
                    functions: upsert_functions(files[j].functions, fc.functions),
                },
            ));
        } else {
            assert(seq![files[0]] + rest.push(
                StoredFileView {
                    path: fc.path,
                    lines: upsert_lines(Seq::empty(), fc.lines),
                    branches: upsert_branches(Seq::empty(), fc.branches),
                    functions: upsert_functions(Seq::empty(), fc.functions),
                },
            ) =~= files.push(
                StoredFileView {
                    path: fc.path,
                    lines: upsert_lines(Seq::empty(), fc.lines),
                    branches: upsert_branches(Seq::empty(), fc.branches),
                    functions: upsert_functions(Seq::empty(), fc.functions),
                },
            ));
        }
    }
}

fn add_file_exec(files: &mut Vec<StoredFile>, fc: &crate::model::FileCoverage)
    ensures
        final(files).deep_view() == add_file(old(files).deep_view(), fc@),
{
    let ghost orig = files.deep_view();
    let n = files.len();
    let mut j: usize = 0;
    while j < n
        invariant
            n == files@.len(),
            0 <= j <= n,
            files.deep_view() == orig,
            orig == old(files).deep_view(),
            orig.len() == n,
            forall|k: int| 0 <= k < j ==> (#[trigger] orig[k]).path != fc@.path,
        decreases n - j,
    {
        proof {
            assert(orig[j as int] == files@[j as int]@);
        }
        if str_eq(files[j].path.as_str(), fc.path.as_str()) {
            let mut e = files.remove(j);
            upsert_lines_exec(&mut e.lines, &fc.lines);
            upsert_branches_exec(&mut e.branches, &fc.branches);
            upsert_functions_exec(&mut e.functions, &fc.functions);
            files.insert(j, e);
            proof {
                lemma_add_file(orig, fc@, j as int);
                assert(files.deep_view() =~= orig.update(
                    j as int,
                    StoredFileView {
                        path: orig[j as int].path,
                        lines: upsert_lines(orig[j as int].lines, fc@.lines),
                        branches: upsert_branches(orig[j as int].branches, fc@.branches),
                        functions: upsert_functions(orig[j as int].functions, fc@.functions),
                    },
                ));
            }
            return ;
        }
        j += 1;
    }
    let mut lines0: Vec<LineCoverage> = Vec::new();
    let mut branches0: Vec<BranchCoverage> = Vec::new();
    let mut functions0: Vec<FunctionCoverage> = Vec::new();
    proof {
        assert(functions0.deep_view() =~= Seq::<FunctionCoverageView>::empty());
    }
    upsert_lines_exec(&mut lines0, &fc.lines);
    upsert_branches_exec(&mut branches0, &fc.branches);
    upsert_functions_exec(&mut functions0, &fc.functions);
    let e = StoredFile {
        path: clone_string(&fc.path),
        lines: lines0,
        branches: branches0,
        functions: functions0,
    };
    let ghost ev = e@;
    files.push(e);
    proof {
        lemma_add_file(orig, fc@, n as int);
        assert(ev == StoredFileView {
            path: fc@.path,
            lines: upsert_lines(Seq::empty(), fc@.lines),
            branches: upsert_branches(Seq::empty(), fc@.branches),
            functions: upsert_functions(Seq::empty(), fc@.functions),
        });
        assert(files.deep_view() =~= orig.push(ev)) by {
            assert(forall|k: int|
                0 <= k < orig.len() ==> #[trigger] files.deep_view()[k] == orig[k]);
            assert(files.deep_view()[orig.len() as int] == ev);
        }
    }
}

/// Folds a whole parse result into per-file entries, merging repeated
/// paths.
fn build_files_exec(data: &CoverageData) -> (r: Vec<StoredFile>)
    ensures
        r.deep_view() == build_files(Seq::empty(), data@),
{
    let mut files: Vec<StoredFile> = Vec::new();
    let n = data.files.len();
    let ghost dv = data@;
    let mut i: usize = 0;
    proof {
        assert(dv.skip(0) =~= dv);
        assert(files.deep_view() =~= Seq::<StoredFileView>::empty());
    }
    while i < n
        invariant
            n == data.files@.len(),
            dv == data@,
            dv.len() == n,
            0 <= i <= n,
            build_files(Seq::empty(), dv) == build_files(files.deep_view(), dv.skip(i as int)),
        decreases n - i,
    {
        proof {
            assert(dv.skip(i as int)[0] == dv[i as int]);
            assert(dv.skip(i as int).drop_first() =~= dv.skip(i + 1));
            assert(dv[i as int] == data.files@[i as int]@);
        }
        add_file_exec(&mut files, &data.files[i]);
        i += 1;
    }
    proof {
        assert(dv.skip(n as int) =~= Seq::<FileCoverageView>::empty());
    }
    files
}

// ---------------------------------------------------------------------------
// The store's operations
// ---------------------------------------------------------------------------

/// The source-file table with every path that no report's coverage rows
/// reference any more removed.
pub open spec fn spec_purge(table: Seq<Seq<char>>, reports: Seq<StoredReportView>) -> Seq<
    Seq<char>,
>
    decreases table.len(),
{
    if table.len() == 0 {
        Seq::empty()
    } else if path_referenced(reports, table[0]) {
        seq![table[0]] + spec_purge(table.drop_first(), reports)
    } else {
        spec_purge(table.drop_first(), reports)
    }
}

/// Relies on `chrono::Utc::now` and `DateTime::to_rfc3339` for the ingest
/// timestamp; nothing is assumed of the clock's value.
#[verifier::external_body]
fn now_rfc3339() -> (r: String)
    ensures
        r@.len() >= 0,
{
    chrono::Utc::now().to_rfc3339()
}

fn path_referenced_exec(reports: &Vec<StoredReport>, path: &str) -> (r: bool)
    ensures
        r == path_referenced(reports.deep_view(), path@),
{
    let ghost rv = reports.deep_view();
    let n = reports.len();
    let mut i: usize = 0;
    while i < n
        invariant
            n == reports@.len(),
            rv == reports.deep_view(),
            rv.len() == n,
            0 <= i <= n,
            forall|a: int, b: int|
                0 <= a < i && 0 <= b < (#[trigger] rv[a]).files.len() ==> !((
                #[trigger] rv[a].files[b]).path == path@ && (rv[a].files[b].lines.len() > 0
                    || rv[a].files[b].branches.len() > 0 || rv[a].files[b].functions.len() > 0)),
        decreases n - i,
    {
        let report = &reports[i];
        proof {
            assert(rv[i as int] == reports@[i as int]@);
        }
        let m = report.files.len();
        let mut j: usize = 0;
        while j < m
            invariant
                m == report.files@.len(),
                rv == reports.deep_view(),
                i < n == rv.len(),
                rv[i as int] == report@,
                0 <= j <= m,
                forall|b: int|
                    0 <= b < j ==> !((#[trigger] report@.files[b]).path == path@ && (
                    report@.files[b].lines.len() > 0 || report@.files[b].branches.len() > 0
                        || report@.files[b].functions.len() > 0)),
            decreases m - j,
        {
            let f = &report.files[j];
            proof {
                assert(report@.files[j as int] == report.files@[j as int]@);
            }
            if str_eq(f.path.as_str(), path) && (f.lines.len() > 0 || f.branches.len() > 0
                || f.functions.len() > 0) {
                proof {
                    let fi = report@.files[j as int];
                    assert(fi.path == path@ && (fi.lines.len() > 0 || fi.branches.len() > 0
                        || fi.functions.len() > 0));
                    assert(path_referenced(rv, path@));
                }
                return true;
            }
            j += 1;
        }
        proof {
            assert(forall|b: int|
                0 <= b < rv[i as int].files.len() ==> !((#[trigger] rv[i as int].files[b]).path
                    == path@ && (rv[i as int].files[b].lines.len() > 0 || rv[
                    i as int
                ].files[b].branches.len() > 0 || rv[i as int].files[b].functions.len() > 0)))
                by {
                assert(rv[i as int] == report@);
            }
        }
        i += 1;
    }
    false
}

impl Store {
    /// An empty store.
    pub fn new() -> (r: Store)
        ensures
            r@.reports.len() == 0,
            r@.source_files.len() == 0,
            r@.next_id == 1,
    {
        Store { reports: Vec::new(), source_files: Vec::new(), next_id: 1 }
    }

    /// Whether a report with this name is stored.
    pub fn has_report(&self, name: &str) -> (r: bool)
        ensures
            r == has_report_named(self@.reports, name@),
    {
        let ghost rv = self@.reports;
        let n = self.reports.len();
        let mut i: usize = 0;
        while i < n
            invariant
                n == self.reports@.len(),
                rv == self@.reports,
                rv.len() == n,
                0 <= i <= n,
                forall|k: int| 0 <= k < i ==> (#[trigger] rv[k]).name != name@,
            decreases n - i,
        {
            proof {
                assert(rv[i as int] == self.reports@[i as int]@);
            }
            if str_eq(self.reports[i].name.as_str(), name) {
                assert(has_report_named(rv, name@));
                return true;
            }
            i += 1;
        }
        false
    }

    /// Removes every report with this name, keeping the others in order.
    fn remove_named_exec(&mut self, name: &str)
        ensures
            final(self)@.reports == remove_named(old(self)@.reports, name@),
            final(self)@.source_files == old(self)@.source_files,
            final(self)@.next_id == old(self)@.next_id,
    {
        let ghost orig = self@.reports;
        let mut kept: Vec<StoredReport> = Vec::new();
        let n = self.reports.len();
        let mut i: usize = 0;
        proof {
            assert(orig.skip(0) =~= orig);
            assert(kept.deep_view() =~= Seq::<StoredReportView>::empty());
            assert(Seq::<StoredReportView>::empty() + remove_named(orig, name@) =~= remove_named(
                orig,
                name@,
            ));
        }
        while i < n
            invariant
                n == self.reports@.len(),
                orig == self@.reports,
                orig.len() == n,
                0 <= i <= n,
                remove_named(orig, name@) == kept.deep_view() + remove_named(
                    orig.skip(i as int),
                    name@,
                ),
            decreases n - i,
        {
            let ghost kv = kept.deep_view();
            proof {
                assert(orig.skip(i as int)[0] == orig[i as int]);
                assert(orig.skip(i as int).drop_first() =~= orig.skip(i + 1));
                assert(orig[i as int] == self.reports@[i as int]@);
            }
            if !str_eq(self.reports[i].name.as_str(), name) {
                let rep = clone_report(&self.reports[i]);
                kept.push(rep);
                proof {
                    assert(kept.deep_view() =~= kv.push(orig[i as int]));
                    assert(kv.push(orig[i as int]) + remove_named(orig.skip(i + 1), name@)
                        =~= kv + (seq![orig[i as int]] + remove_named(orig.skip(i + 1), name@)));
                }
            }
            i += 1;
        }
        proof {
            assert(orig.skip(n as int) =~= Seq::<StoredReportView>::empty());
            assert(kept.deep_view() + remove_named(Seq::empty(), name@) =~= kept.deep_view());
        }
        self.reports = kept;
    }

    /// Removes every path that no remaining coverage row references.
    fn purge_orphans(&mut self)
        ensures
            final(self)@.source_files == spec_purge(old(self)@.source_files, old(self)@.reports),
            final(self)@.reports == old(self)@.reports,
            final(self)@.next_id == old(self)@.next_id,
    {
        let ghost table = self@.source_files;
        let ghost rv = self@.reports;
        let mut kept: Vec<String> = Vec::new();
        let n = self.source_files.len();
        let mut i: usize = 0;
        proof {
            assert(table.skip(0) =~= table);
            assert(kept.deep_view() =~= Seq::<Seq<char>>::empty());
            assert(Seq::<Seq<char>>::empty() + spec_purge(table, rv) =~= spec_purge(table, rv));
        }
        while i < n
            invariant
                n == self.source_files@.len(),
                table == self@.source_files,
                rv == self@.reports,
                table.len() == n,
                0 <= i <= n,
                spec_purge(table, rv) == kept.deep_view() + spec_purge(table.skip(i as int), rv),
            decreases n - i,
        {
            let ghost kv = kept.deep_view();
            proof {
                assert(table.skip(i as int)[0] == table[i as int]);
                assert(table.skip(i as int).drop_first() =~= table.skip(i + 1));
                assert(table[i as int] == self.source_files@[i as int]@);
            }
            if path_referenced_exec(&self.reports, self.source_files[i].as_str()) {
                let p = clone_string(&self.source_files[i]);
                kept.push(p);
                proof {
                    assert(kept.deep_view() =~= kv.push(table[i as int]));
                    assert(kv.push(table[i as int]) + spec_purge(table.skip(i + 1), rv) =~= kv + (
                    seq![table[i as int]] + spec_purge(table.skip(i + 1), rv)));
                }
            }
            i += 1;
        }
        proof {
            assert(table.skip(n as int) =~= Seq::<Seq<char>>::empty());
            assert(kept.deep_view() + spec_purge(Seq::empty(), rv) =~= kept.deep_view());
        }
        self.source_files = kept;
    }

    /// Adds each path of `files` that the source-file table lacks, in
    /// order.
    fn extend_paths_exec(&mut self, files: &Vec<StoredFile>)
        ensures
            final(self)@.source_files == extend_paths(old(self)@.source_files, files.deep_view()),
            final(self)@.reports == old(self)@.reports,
            final(self)@.next_id == old(self)@.next_id,
    {
        let ghost fv = files.deep_view();
        let n = files.len();
        let mut i: usize = 0;
        proof {
            assert(fv.skip(0) =~= fv);
        }
        while i < n
            invariant
                n == files@.len(),
                fv == files.deep_view(),
                fv.len() == n,
                0 <= i <= n,
                extend_paths(old(self)@.source_files, fv) == extend_paths(
                    self@.source_files,
                    fv.skip(i as int),
                ),
                self@.reports == old(self)@.reports,
                self@.next_id == old(self)@.next_id,
            decreases n - i,
        {
            proof {
                assert(fv.skip(i as int)[0] == fv[i as int]);
                assert(fv.skip(i as int).drop_first() =~= fv.skip(i + 1));
                assert(fv[i as int] == files@[i as int]@);
            }
            let ghost tb = self@.source_files;
            if !self.contains_path(files[i].path.as_str()) {
                let p = clone_string(&files[i].path);
                self.source_files.push(p);
                proof {
                    assert(self@.source_files =~= tb.push(fv[i as int].path));
                }
            }
            i += 1;
        }
        proof {
            assert(fv.skip(n as int) =~= Seq::<StoredFileView>::empty());
        }
    }

    /// Whether the source-file table holds this path.
    pub fn contains_path(&self, path: &str) -> (r: bool)
        ensures
            r == self@.source_files.contains(path@),
    {
        let ghost table = self@.source_files;
        let n = self.source_files.len();
        let mut i: usize = 0;
        while i < n
            invariant
                n == self.source_files@.len(),
                table == self@.source_files,
                table.len() == n,
                0 <= i <= n,
                forall|k: int| 0 <= k < i ==> #[trigger] table[k] != path@,
            decreases n - i,
        {
            proof {
                assert(table[i as int] == self.source_files@[i as int]@);
            }
            if str_eq(self.source_files[i].as_str(), path) {
                assert(table.contains(path@));
                return true;
            }
            i += 1;
        }
        proof {
            if table.contains(path@) {
                let k = choose|k: int| 0 <= k < table.len() && table[k] == path@;
                assert(table[k] != path@);
            }
        }
        false
    }

    /// Ingest a parsed `CoverageData` as a new report. With `overwrite`,
    /// any same-named report is replaced and source files its rows alone
    /// referenced are purged; without it, a duplicate name is refused.
    pub fn insert_coverage(
        &mut self,
        name: &str,
        source_format: &str,
        source_file: Option<&str>,
        data: &CoverageData,
        overwrite: bool,
    ) -> (r: Result<u64, CovrsError>)
        requires
            old(self)@.next_id < u64::MAX,
        ensures
            ({
                let base = if overwrite {
                    remove_named(old(self)@.reports, name@)
                } else {
                    old(self)@.reports
                };
                match r {
                    Ok(id) => {
                        &&& !(has_report_named(old(self)@.reports, name@) && !overwrite)
                        &&& id == old(self)@.next_id
                        &&& final(self)@.next_id == old(self)@.next_id + 1
                        &&& final(self)@.reports.len() == base.len() + 1
                        &&& final(self)@.reports.take(base.len() as int) == base
                        &&& final(self)@.reports.last().id == id
                        &&& final(self)@.reports.last().name == name@
                        &&& final(self)@.reports.last().source_format == source_format@
                        &&& final(self)@.reports.last().source_file == (match source_file {
                            Some(s) => Some(s@),
                            None => None::<Seq<char>>,
                        })
                        &&& final(self)@.reports.last().files == build_files(Seq::empty(), data@)
                        &&& final(self)@.source_files == (if overwrite {
                            spec_purge(
                                extend_paths(
                                    old(self)@.source_files,
                                    build_files(Seq::empty(), data@),
                                ),
                                final(self)@.reports,
                            )
                        } else {
                            extend_paths(old(self)@.source_files, build_files(Seq::empty(), data@))
                        })
                    },
                    Err(e) => {
                        &&& has_report_named(old(self)@.reports, name@) && !overwrite
                        &&& e matches CovrsError::DuplicateReport(n) && n@ == name@
                        &&& final(self)@.reports == old(self)@.reports
                        &&& final(self)@.source_files == old(self)@.source_files
                        &&& final(self)@.next_id == old(self)@.next_id
                    },
                }
            }),
    {
        if !overwrite && self.has_report(name) {
            return Err(CovrsError::DuplicateReport(name.to_owned()));
        }
        if overwrite {
            self.remove_named_exec(name);
        } else {
            proof {
                assert(!has_report_named(self@.reports, name@));
            }
        }
        let ghost base = self@.reports;
        let files = build_files_exec(data);
        self.extend_paths_exec(&files);
        let id = self.next_id;
        self.next_id = self.next_id + 1;
        let source_file_owned: Option<String> = match source_file {
            Some(s) => Some(s.to_owned()),
            None => None,
        };
        let rep = StoredReport {
            id,
            name: name.to_owned(),
            source_format: source_format.to_owned(),
            source_file: source_file_owned,
            created_at: now_rfc3339(),
            files,
        };
        self.reports.push(rep);
        proof {
            assert(self@.reports.take(base.len() as int) =~= base);
        }
        if overwrite {
            self.purge_orphans();
        }
        Ok(id)
    }

    /// Forgets the named report and purges source files only it
    /// referenced; refuses a name that is not stored.
    pub fn delete_report(&mut self, name: &str) -> (r: Result<(), CovrsError>)
        ensures
            match r {
                Ok(_) => {
                    &&& has_report_named(old(self)@.reports, name@)
                    &&& final(self)@.reports == remove_named(old(self)@.reports, name@)
                    &&& final(self)@.source_files == spec_purge(
                        old(self)@.source_files,
                        final(self)@.reports,
                    )
                    &&& final(self)@.next_id == old(self)@.next_id
                },
                Err(e) => {
                    &&& !has_report_named(old(self)@.reports, name@)
                    &&& e matches CovrsError::ReportNotFound(n) && n@ == name@
                    &&& final(self)@.reports == old(self)@.reports
                    &&& final(self)@.source_files == old(self)@.source_files
                    &&& final(self)@.next_id == old(self)@.next_id
                },
            },
    {
        if !self.has_report(name) {
            return Err(CovrsError::ReportNotFound(name.to_owned()));
        }
        self.remove_named_exec(name);
        self.purge_orphans();
        Ok(())
    }

    /// Every stored report's name, format and creation time, in storage
    /// order.
    pub fn list_reports(&self) -> (r: Vec<ReportInfo>)
        ensures
            r@.len() == self@.reports.len(),
            forall|i: int|
                0 <= i < r@.len() ==> (#[trigger] r@[i]).name@ == self@.reports[i].name
                    && r@[i].format@ == self@.reports[i].source_format && r@[i].created_at@
                    == self@.reports[i].created_at,
    {
        let ghost rv = self@.reports;
        let mut out: Vec<ReportInfo> = Vec::new();
        let n = self.reports.len();
        let mut i: usize = 0;
        while i < n
            invariant
                n == self.reports@.len(),
                rv == self@.reports,
                rv.len() == n,
                0 <= i <= n,
                out@.len() == i,
                forall|k: int|
                    0 <= k < i ==> (#[trigger] out@[k]).name@ == rv[k].name && out@[k].format@
                        == rv[k].source_format && out@[k].created_at@ == rv[k].created_at,
            decreases n - i,
        {
            proof {
                assert(rv[i as int] == self.reports@[i as int]@);
            }
            let rep = &self.reports[i];
            out.push(
                ReportInfo {
                    name: clone_string(&rep.name),
                    format: clone_string(&rep.source_format),
                    created_at: clone_string(&rep.created_at),
                },
            );
            i += 1;
        }
        out
    }
}

/// A copy of a stored report with the same content.
fn clone_report(r: &StoredReport) -> (out: StoredReport)
    ensures
        out@ == r@,
{
    let mut files: Vec<StoredFile> = Vec::new();
    let n = r.files.len();
    let mut i: usize = 0;
    while i < n
        invariant
            n == r.files@.len(),
            0 <= i <= n,
            files@.len() == i,
            forall|k: int| 0 <= k < i ==> #[trigger] files@[k]@ == r.files@[k]@,
        decreases n - i,
    {
        let f = &r.files[i];
        let mut functions: Vec<FunctionCoverage> = Vec::new();
        let m = f.functions.len();
        let mut j: usize = 0;
        while j < m
            invariant
                m == f.functions@.len(),
                0 <= j <= m,
                functions@.len() == j,
                forall|k: int| 0 <= k < j ==> #[trigger] functions@[k]@ == f.functions@[k]@,
            decreases m - j,
        {
            functions.push(clone_function(&f.functions[j]));
            j += 1;
        }
        proof {
            assert(functions.deep_view() =~= f.functions.deep_view()) by {
                assert(forall|k: int|
                    0 <= k < m ==> #[trigger] functions.deep_view()[k] == functions@[k]@);
                assert(forall|k: int|
                    0 <= k < m ==> #[trigger] f.functions.deep_view()[k] == f.functions@[k]@);
            }
        }
        let sf = StoredFile {
            path: clone_string(&f.path),
            lines: clone_lines(&f.lines),
            branches: clone_branches(&f.branches),
            functions,
        };
        proof {
            assert(sf@ == f@);
        }
        files.push(sf);
        i += 1;
    }
    proof {
        assert(files.deep_view() =~= r.files.deep_view()) by {
            assert(forall|k: int| 0 <= k < n ==> #[trigger] files.deep_view()[k] == files@[k]@);
            assert(forall|k: int|
                0 <= k < n ==> #[trigger] r.files.deep_view()[k] == r.files@[k]@);
        }
    }
    StoredReport {
        id: r.id,
        name: clone_string(&r.name),
        source_format: clone_string(&r.source_format),
        source_file: match &r.source_file {
            Some(s) => Some(clone_string(s)),
            None => None,
        },
        created_at: clone_string(&r.created_at),
        files,
    }
}

/// A copy of the line rows.
fn clone_lines(v: &Vec<LineCoverage>) -> (r: Vec<LineCoverage>)
    ensures
        r@ == v@,
{
    let mut r: Vec<LineCoverage> = Vec::new();
    let n = v.len();
    let mut i: usize = 0;
    while i < n
        invariant
            n == v@.len(),
            0 <= i <= n,
            r@ =~= v@.take(i as int),
        decreases n - i,
    {
        r.push(v[i]);
        proof {
            assert(r@ =~= v@.take(i + 1));
        }
        i += 1;
    }
    proof {
        assert(v@.take(n as int) =~= v@);
    }
    r
}

/// A copy of the branch rows.
fn clone_branches(v: &Vec<BranchCoverage>) -> (r: Vec<BranchCoverage>)
    ensures
        r@ == v@,
{
    let mut r: Vec<BranchCoverage> = Vec::new();
    let n = v.len();
    let mut i: usize = 0;
    while i < n
        invariant
            n == v@.len(),
            0 <= i <= n,
            r@ =~= v@.take(i as int),
        decreases n - i,
    {
        r.push(v[i]);
        proof {
            assert(r@ =~= v@.take(i + 1));
        }
        i += 1;
    }
    proof {
        assert(v@.take(n as int) =~= v@);
    }
    r
}


// ---------------------------------------------------------------------------
// Queries (union semantics)
// ---------------------------------------------------------------------------

/// Branch rows keyed by line number and branch index.
pub open spec fn branch_hit_in_rows(rows: Seq<BranchCoverage>, ln: u32, idx: u32) -> Option<u64>
    decreases rows.len(),
{
    if rows.len() == 0 {
        None
    } else if rows[0].line_number == ln && rows[0].branch_index == idx {
        Some(rows[0].hit_count)
    } else {
        branch_hit_in_rows(rows.drop_first(), ln, idx)
    }
}

/// The hit count one report records for a branch arm, if any.
pub open spec fn report_branch_hit(r: StoredReportView, path: Seq<char>, ln: u32, idx: u32) -> Option<
    u64,
> {
    match report_file(r, path) {
        None => None,
        Some(f) => branch_hit_in_rows(f.branches, ln, idx),
    }
}

/// The effective hit count of a branch arm across all reports.
pub open spec fn eff_branch_hit(
    reports: Seq<StoredReportView>,
    path: Seq<char>,
    ln: u32,
    idx: u32,
) -> Option<u64>
    decreases reports.len(),
{
    if reports.len() == 0 {
        None
    } else {
        combine_hits(
            report_branch_hit(reports[0], path, ln, idx),
            eff_branch_hit(reports.drop_first(), path, ln, idx),
        )
    }
}

/// Function rows keyed by name and start line.
pub open spec fn function_hit_in_rows(
    rows: Seq<FunctionCoverageView>,
    name: Seq<char>,
    start: Option<u32>,
) -> Option<u64>
    decreases rows.len(),
{
    if rows.len() == 0 {
        None
    } else if rows[0].name == name && rows[0].start_line == start {
        Some(rows[0].hit_count)
    } else {
        function_hit_in_rows(rows.drop_first(), name, start)
    }
}

/// The hit count one report records for a function, if any.
pub open spec fn report_function_hit(
    r: StoredReportView,
    path: Seq<char>,
    name: Seq<char>,
    start: Option<u32>,
) -> Option<u64> {
    match report_file(r, path) {
        None => None,
        Some(f) => function_hit_in_rows(f.functions, name, start),
    }
}

/// The effective hit count of a function across all reports.
pub open spec fn eff_function_hit(
    reports: Seq<StoredReportView>,
    path: Seq<char>,
    name: Seq<char>,
    start: Option<u32>,
) -> Option<u64>
    decreases reports.len(),
{
    if reports.len() == 0 {
        None
    } else {
        combine_hits(
            report_function_hit(reports[0], path, name, start),
            eff_function_hit(reports.drop_first(), path, name, start),
        )
    }
}

/// Combining effective hits is associative.
proof fn lemma_combine_assoc(a: Option<u64>, b: Option<u64>, c: Option<u64>)
    ensures
        combine_hits(combine_hits(a, b), c) == combine_hits(a, combine_hits(b, c)),
{
}

/// Looks up the first file entry of a report with the given path.
fn report_file_exec<'a>(rep: &'a StoredReport, path: &str) -> (r: Option<&'a StoredFile>)
    ensures
        match r {
            Some(f) => report_file(rep@, path@) == Some(f@),
            None => report_file(rep@, path@) is None,
        },
{
    let ghost rv = rep@;
    let n = rep.files.len();
    let mut i: usize = 0;
    proof {
        assert(rv.files.skip(0) =~= rv.files);
        assert(StoredReportView { files: rv.files.skip(0), ..rv } == rv);
    }
    while i < n
        invariant
            n == rep.files@.len(),
            rv == rep@,
            rv.files.len() == n,
            0 <= i <= n,
            forall|k: int| 0 <= k < i ==> (#[trigger] rv.files[k]).path != path@,
            report_file(rv, path@) == report_file(
                StoredReportView { files: rv.files.skip(i as int), ..rv },
                path@,
            ),
        decreases n - i,
    {
        proof {
            assert(rv.files[i as int] == rep.files@[i as int]@);
            assert(rv.files.skip(i as int)[0] == rv.files[i as int]);
            assert(rv.files.skip(i as int).drop_first() =~= rv.files.skip(i + 1));
        }
        if str_eq(rep.files[i].path.as_str(), path) {
            return Some(&rep.files[i]);
        }
        i += 1;
    }
    proof {
        assert(rv.files.skip(n as int) =~= Seq::<StoredFileView>::empty());
    }
    None
}

/// The hit count the row list records for `ln`, if any.
fn line_hit_in_rows_exec(rows: &Vec<LineCoverage>, ln: u32) -> (r: Option<u64>)
    ensures
        r == line_hit_in_rows(rows@, ln),
{
    let n = rows.len();
    let mut i: usize = 0;
    proof {
        assert(rows@.skip(0) =~= rows@);
    }
    while i < n
        invariant
            n == rows@.len(),
            0 <= i <= n,
            line_hit_in_rows(rows@, ln) == line_hit_in_rows(rows@.skip(i as int), ln),
        decreases n - i,
    {
        proof {
            assert(rows@.skip(i as int)[0] == rows@[i as int]);
            assert(rows@.skip(i as int).drop_first() =~= rows@.skip(i + 1));
        }
        if rows[i].line_number == ln {
            return Some(rows[i].hit_count);
        }
        i += 1;
    }
    proof {
        assert(rows@.skip(n as int) =~= Seq::<LineCoverage>::empty());
    }
    None
}

/// The hit count one report records for a file's line, if any.
fn report_line_hit_exec(rep: &StoredReport, path: &str, ln: u32) -> (r: Option<u64>)
    ensures
        r == report_line_hit(rep@, path@, ln),
{
    match report_file_exec(rep, path) {
        Some(f) => line_hit_in_rows_exec(&f.lines, ln),
        None => None,
    }
}

/// The union of two per-report answers.
fn combine_hits_exec(a: Option<u64>, b: Option<u64>) -> (r: Option<u64>)
    ensures
        r == combine_hits(a, b),
{
    match (a, b) {
        (None, x) => x,
        (x, None) => x,
        (Some(x), Some(y)) => if x >= y {
            Some(x)
        } else {
            Some(y)
        },
    }
}

/// The effective hit count of a file's line across all reports.
fn eff_line_hit_exec(reports: &Vec<StoredReport>, path: &str, ln: u32) -> (r: Option<u64>)
    ensures
        r == eff_line_hit(reports.deep_view(), path@, ln),
{
    let ghost rv = reports.deep_view();
    let mut acc: Option<u64> = None;
    let n = reports.len();
    let mut i: usize = 0;
    proof {
        assert(rv.skip(0) =~= rv);
    }
    while i < n
        invariant
            n == reports@.len(),
            rv == reports.deep_view(),
            rv.len() == n,
            0 <= i <= n,
            eff_line_hit(rv, path@, ln) == combine_hits(acc, eff_line_hit(rv.skip(i as int), path@, ln)),
        decreases n - i,
    {
        proof {
            assert(rv.skip(i as int)[0] == rv[i as int]);
            assert(rv.skip(i as int).drop_first() =~= rv.skip(i + 1));
            assert(rv[i as int] == reports@[i as int]@);
        }
        let h = report_line_hit_exec(&reports[i], path, ln);
        proof {
            lemma_combine_assoc(acc, report_line_hit(rv[i as int], path@, ln), eff_line_hit(rv.skip(i + 1), path@, ln));
        }
        acc = combine_hits_exec(acc, h);
        i += 1;
    }
    proof {
        assert(rv.skip(n as int) =~= Seq::<StoredReportView>::empty());
    }
    acc
}

/// Inserts `x` into a strictly sorted list, keeping it strictly sorted;
/// membership grows by exactly `x`.
fn insert_sorted_u32(v: &mut Vec<u32>, x: u32)
    requires
        sorted_strict(old(v)@),
    ensures
        sorted_strict(final(v)@),
        forall|y: u32| #[trigger] final(v)@.contains(y) <==> (old(v)@.contains(y) || y == x),
        final(v)@.len() <= old(v)@.len() + 1,
{
    let ghost orig = v@;
    let n = v.len();
    let mut i: usize = 0;
    while i < n
        invariant
            n == v@.len(),
            v@ == orig,
            orig == old(v)@,
            sorted_strict(orig),
            0 <= i <= n,
            forall|k: int| 0 <= k < i ==> #[trigger] orig[k] < x,
        decreases n - i,
    {
        if v[i] == x {
            proof {
                assert(orig[i as int] == x);
                assert(orig.contains(x));
            }
            return ;
        }
        if v[i] > x {
            v.insert(i, x);
            proof {
                assert(forall|k: int| 0 <= k < i ==> #[trigger] v@[k] == orig[k]);
                assert(v@[i as int] == x);
                assert(forall|k: int| i < k < v@.len() ==> #[trigger] v@[k] == orig[k - 1]);
                assert forall|y: u32| #[trigger] v@.contains(y) implies (orig.contains(y) || y
                    == x) by {
                    let k = choose|k: int| 0 <= k < v@.len() && v@[k] == y;
                    if k < i {
                        assert(orig[k] == y);
                    } else if k > i {
                        assert(orig[k - 1] == y);
                    }
                }
                assert forall|y: u32| (orig.contains(y) || y == x) implies #[trigger] v@.contains(
                    y,
                ) by {
                    if orig.contains(y) {
                        let k = choose|k: int| 0 <= k < orig.len() && orig[k] == y;
                        if k < i {
                            assert(v@[k] == y);
                        } else {
                            assert(v@[k + 1] == y);
                        }
                    } else {
                        assert(v@[i as int] == y);
                    }
                }
            }
            return ;
        }
        i += 1;
    }
    v.push(x);
    proof {
        assert(forall|k: int| 0 <= k < n ==> #[trigger] v@[k] == orig[k]);
        assert(v@[n as int] == x);
        assert forall|y: u32| #[trigger] v@.contains(y) implies (orig.contains(y) || y == x) by {
            let k = choose|k: int| 0 <= k < v@.len() && v@[k] == y;
            if k < n {
                assert(orig[k] == y);
            }
        }
        assert forall|y: u32| (orig.contains(y) || y == x) implies #[trigger] v@.contains(y) by {
            if orig.contains(y) {
                let k = choose|k: int| 0 <= k < orig.len() && orig[k] == y;
                assert(v@[k] == y);
            } else {
                assert(v@[n as int] == y);
            }
        }
    }
}

/// `line_hit_in_rows` answers exactly for the line numbers among the rows.
proof fn lemma_line_rows_some(rows: Seq<LineCoverage>, ln: u32)
    ensures
        (line_hit_in_rows(rows, ln) is Some) <==> (exists|k: int|
            0 <= k < rows.len() && (#[trigger] rows[k]).line_number == ln),
    decreases rows.len(),
{
    if rows.len() > 0 {
        lemma_line_rows_some(rows.drop_first(), ln);
        assert(forall|k: int|
            0 <= k < rows.drop_first().len() ==> #[trigger] rows.drop_first()[k] == rows[k + 1]);
        if rows[0].line_number == ln {
        } else {
            if line_hit_in_rows(rows, ln) is Some {
                let k = choose|k: int|
                    0 <= k < rows.drop_first().len() && (#[trigger] rows.drop_first()[k]).line_number
                        == ln;
                assert(rows[k + 1].line_number == ln);
            }
            if exists|k: int| 0 <= k < rows.len() && (#[trigger] rows[k]).line_number == ln {
                let k = choose|k: int| 0 <= k < rows.len() && (#[trigger] rows[k]).line_number == ln;
                assert(rows.drop_first()[k - 1].line_number == ln);
            }
        }
    }
}

/// A line is instrumented exactly when some report's matching file entry
/// holds a row for it.
proof fn lemma_instrumented_witness(reports: Seq<StoredReportView>, path: Seq<char>, ln: u32)
    ensures
        is_instrumented(reports, path, ln) <==> (exists|i: int|
            0 <= i < reports.len() && report_line_hit(#[trigger] reports[i], path, ln) is Some),
    decreases reports.len(),
{
    if reports.len() > 0 {
        lemma_instrumented_witness(reports.drop_first(), path, ln);
        assert(forall|k: int|
            0 <= k < reports.drop_first().len() ==> #[trigger] reports.drop_first()[k] == reports[k
                + 1]);
        if report_line_hit(reports[0], path, ln) is Some {
        } else {
            if is_instrumented(reports, path, ln) {
                let k = choose|k: int|
                    0 <= k < reports.drop_first().len() && report_line_hit(
                        #[trigger] reports.drop_first()[k],
                        path,
                        ln,
                    ) is Some;
                assert(report_line_hit(reports[k + 1], path, ln) is Some);
            }
            if exists|i: int|
                0 <= i < reports.len() && report_line_hit(#[trigger] reports[i], path, ln) is Some {
                let k = choose|k: int|
                    0 <= k < reports.len() && report_line_hit(#[trigger] reports[k], path, ln) is Some;
                if k == 0 {
                } else {
                    assert(report_line_hit(reports.drop_first()[k - 1], path, ln) is Some);
                }
            }
        }
    }
}

impl Store {
    /// All instrumentable line numbers of a file, sorted: those for which
    /// some report holds a line row.
    fn gather_lines(&self, path: &str) -> (r: Vec<u32>)
        ensures
            sorted_strict(r@),
            forall|ln: u32|
                #[trigger] r@.contains(ln) <==> is_instrumented(self@.reports, path@, ln),
    {
        let ghost rv = self@.reports;
        let mut out: Vec<u32> = Vec::new();
        let n = self.reports.len();
        let mut i: usize = 0;
        while i < n
            invariant
                n == self.reports@.len(),
                rv == self@.reports,
                rv.len() == n,
                0 <= i <= n,
                sorted_strict(out@),
                forall|ln: u32|
                    #[trigger] out@.contains(ln) <==> (exists|k: int|
                        0 <= k < i && report_line_hit(#[trigger] rv[k], path@, ln) is Some),
            decreases n - i,
        {
            proof {
                assert(rv[i as int] == self.reports@[i as int]@);
            }
            match report_file_exec(&self.reports[i], path) {
                None => {
                    proof {
                        assert forall|ln: u32| #[trigger] out@.contains(ln) <==> (exists|k: int|
                            0 <= k < i + 1 && report_line_hit(#[trigger] rv[k], path@, ln) is Some) by {
                            if out@.contains(ln) {
                                let k = choose|k: int|
                                    0 <= k < i && report_line_hit(#[trigger] rv[k], path@, ln) is Some;
                                assert(report_line_hit(rv[k], path@, ln) is Some);
                            }
                            if exists|k: int|
                                0 <= k < i + 1 && report_line_hit(#[trigger] rv[k], path@, ln) is Some {
                                let k = choose|k: int|
                                    0 <= k < i + 1 && report_line_hit(#[trigger] rv[k], path@, ln) is Some;
                                assert(k < i);
                            }
                        }
                    }
                },
                Some(f) => {
                    let m = f.lines.len();
                    let mut j: usize = 0;
                    while j < m
                        invariant
                            m == f.lines@.len(),
                            rv == self@.reports,
                            i < n == rv.len(),
                            report_file(rv[i as int], path@) == Some(f@),
                            0 <= j <= m,
                            sorted_strict(out@),
                            forall|ln: u32|
                                #[trigger] out@.contains(ln) <==> ((exists|k: int|
                                    0 <= k < i && report_line_hit(
                                        #[trigger] rv[k],
                                        path@,
                                        ln,
                                    ) is Some) || (exists|b: int|
                                    0 <= b < j && (#[trigger] f.lines@[b]).line_number == ln)),
                        decreases m - j,
                    {
                        let ln = f.lines[j].line_number;
                        let ghost before = out@;
                        insert_sorted_u32(&mut out, ln);
                        proof {
                            assert forall|y: u32| #[trigger] out@.contains(y) <==> ((exists|k: int|
                                0 <= k < i && report_line_hit(#[trigger] rv[k], path@, y) is Some)
                                || (exists|b: int|
                                0 <= b < j + 1 && (#[trigger] f.lines@[b]).line_number == y)) by {
                                if out@.contains(y) {
                                    if before.contains(y) {
                                    } else {
                                        assert(y == ln);
                                        assert(f.lines@[j as int].line_number == y);
                                    }
                                } else {
                                    if y == ln {
                                        assert(out@.contains(y));
                                    }
                                }
                            }
                        }
                        j += 1;
                    }
                    proof {
                        assert forall|ln: u32| #[trigger] out@.contains(ln) <==> (exists|k: int|
                            0 <= k < i + 1 && report_line_hit(#[trigger] rv[k], path@, ln) is Some) by {
                            lemma_line_rows_some(f.lines@, ln);
                            if out@.contains(ln) {
                                if exists|k: int|
                                    0 <= k < i && report_line_hit(#[trigger] rv[k], path@, ln) is Some {
                                    let k = choose|k: int|
                                        0 <= k < i && report_line_hit(
                                            #[trigger] rv[k],
                                            path@,
                                            ln,
                                        ) is Some;
                                    assert(report_line_hit(rv[k], path@, ln) is Some);
                                } else {
                                    assert(report_line_hit(rv[i as int], path@, ln) is Some);
                                }
                            }
                            if exists|k: int|
                                0 <= k < i + 1 && report_line_hit(#[trigger] rv[k], path@, ln) is Some {
                                let k = choose|k: int|
                                    0 <= k < i + 1 && report_line_hit(#[trigger] rv[k], path@, ln) is Some;
                                if k < i {
                                } else {
                                    assert(line_hit_in_rows(f.lines@, ln) is Some);
                                }
                            }
                        }
                    }
                },
            }
            i += 1;
        }
        proof {
            assert forall|ln: u32| #[trigger] out@.contains(ln) <==> is_instrumented(
                rv,
                path@,
                ln,
            ) by {
                lemma_instrumented_witness(rv, path@, ln);
            }
        }
        out
    }

    /// Line-level detail for a source file across all reports: each
    /// instrumentable line with its effective (maximum) hit count, sorted;
    /// a path no report mentions is refused.
    pub fn get_lines(&self, source_path: &str) -> (r: Result<Vec<LineDetail>, CovrsError>)
        ensures
            match r {
                Ok(v) => {
                    &&& self@.source_files.contains(source_path@)
                    &&& forall|a: int, b: int|
                        0 <= a < b < v@.len() ==> (#[trigger] v@[a]).line_number < (
                        #[trigger] v@[b]).line_number
                    &&& forall|k: int|
                        0 <= k < v@.len() ==> eff_line_hit(
                            self@.reports,
                            source_path@,
                            (#[trigger] v@[k]).line_number,
                        ) == Some(v@[k].hit_count)
                    &&& forall|ln: u32|
                        is_instrumented(self@.reports, source_path@, ln) ==> exists|k: int|
                            0 <= k < v@.len() && (#[trigger] v@[k]).line_number == ln
                },
                Err(e) => {
                    &&& !self@.source_files.contains(source_path@)
                    &&& e matches CovrsError::UnknownFile(p) && p@ == source_path@
                },
            },
    {
        if !self.contains_path(source_path) {
            return Err(CovrsError::UnknownFile(source_path.to_owned()));
        }
        let lines = self.gather_lines(source_path);
        let mut out: Vec<LineDetail> = Vec::new();
        let n = lines.len();
        let mut i: usize = 0;
        while i < n
            invariant
                n == lines@.len(),
                sorted_strict(lines@),
                forall|ln: u32|
                    #[trigger] lines@.contains(ln) <==> is_instrumented(
                        self@.reports,
                        source_path@,
                        ln,
                    ),
                0 <= i <= n,
                out@.len() == i,
                forall|k: int|
                    0 <= k < i ==> (#[trigger] out@[k]).line_number == lines@[k],
                forall|k: int|
                    0 <= k < i ==> eff_line_hit(
                        self@.reports,
                        source_path@,
                        (#[trigger] out@[k]).line_number,
                    ) == Some(out@[k].hit_count),
            decreases n - i,
        {
            let ln = lines[i];
            proof {
                assert(lines@.contains(ln));
            }
            let h = match eff_line_hit_exec(&self.reports, source_path, ln) {
                Some(h) => h,
                None => {
                    // Unreachable: a gathered line is instrumented.
                    assert(false);
                    0
                },
            };
            out.push(LineDetail { line_number: ln, hit_count: h });
            i += 1;
        }
        proof {
            assert forall|ln: u32|
                is_instrumented(self@.reports, source_path@, ln) implies exists|k: int|
                0 <= k < out@.len() && (#[trigger] out@[k]).line_number == ln by {
                assert(lines@.contains(ln));
                let k = choose|k: int| 0 <= k < lines@.len() && lines@[k] == ln;
                assert(out@[k].line_number == ln);
            }
        }
        Ok(out)
    }
}


// ---------------------------------------------------------------------------
// Diff coverage
// ---------------------------------------------------------------------------

/// The added lines the diff records for `path`: those of its first entry
/// with that path, or none.
pub open spec fn diff_entry_lines(diff: Seq<(Seq<char>, Seq<u32>)>, path: Seq<char>) -> Seq<u32>
    decreases diff.len(),
{
    if diff.len() == 0 {
        Seq::empty()
    } else if diff[0].0 == path {
        diff[0].1
    } else {
        diff_entry_lines(diff.drop_first(), path)
    }
}

/// With pairwise distinct paths, each entry is its own first match.
proof fn lemma_diff_entry_lines(diff: Seq<(Seq<char>, Seq<u32>)>, e: int)
    requires
        0 <= e < diff.len(),
        forall|a: int, b: int|
            0 <= a < b < diff.len() ==> (#[trigger] diff[a]).0 != (#[trigger] diff[b]).0,
    ensures
        diff_entry_lines(diff, diff[e].0) == diff[e].1,
    decreases diff.len(),
{
    if e == 0 {
    } else {
        let rest = diff.drop_first();
        assert(forall|k: int| 0 <= k < rest.len() ==> #[trigger] rest[k] == diff[k + 1]);
        assert(diff[0].0 != diff[e].0);
        lemma_diff_entry_lines(rest, e - 1);
    }
}

/// One well-formed result row of `diff_coverage`: its lines are sorted,
/// exactly the diff's added lines for the path that are instrumentable,
/// partitioned by whether any report covered them.
pub open spec fn file_diff_ok(
    s: StoreView,
    diff: Seq<(Seq<char>, Seq<u32>)>,
    f: &crate::model::FileDiffCoverage,
) -> bool {
    &&& s.source_files.contains(f.path@)
    &&& sorted_strict(f.covered_lines@)
    &&& sorted_strict(f.missed_lines@)
    &&& f.covered_lines@.len() + f.missed_lines@.len() > 0
    &&& forall|ln: u32|
        #[trigger] f.covered_lines@.contains(ln) <==> (diff_entry_lines(diff, f.path@).contains(ln)
            && (eff_line_hit(s.reports, f.path@, ln) matches Some(h) && h > 0))
    &&& forall|ln: u32|
        #[trigger] f.missed_lines@.contains(ln) <==> (diff_entry_lines(diff, f.path@).contains(ln)
            && eff_line_hit(s.reports, f.path@, ln) == Some(0u64))
}

/// Whether a diff entry names a known file and adds at least one
/// instrumentable line.
pub open spec fn entry_has_instr(s: StoreView, e: (Seq<char>, Seq<u32>)) -> bool {
    s.source_files.contains(e.0) && (exists|k: int|
        0 <= k < e.1.len() && is_instrumented(s.reports, e.0, #[trigger] e.1[k]))
}

/// Total covered lines of the result rows.
pub open spec fn spec_sum_covered(files: Seq<crate::model::FileDiffCoverage>) -> int
    decreases files.len(),
{
    if files.len() == 0 {
        0
    } else {
        spec_sum_covered(files.drop_last()) + files.last().covered_lines@.len()
    }
}

/// Total instrumentable lines of the result rows.
pub open spec fn spec_sum_instr(files: Seq<crate::model::FileDiffCoverage>) -> int
    decreases files.len(),
{
    if files.len() == 0 {
        0
    } else {
        spec_sum_instr(files.drop_last()) + files.last().covered_lines@.len()
            + files.last().missed_lines@.len()
    }
}

/// `v` capped at the top of the `usize` range.
pub open spec fn sat_usize(v: int) -> int {
    if v <= usize::MAX {
        v
    } else {
        usize::MAX as int
    }
}

fn sat_add_usize(a: usize, b: usize) -> (r: usize)
    ensures
        r == sat_usize(a + b),
{
    if a > usize::MAX - b {
        usize::MAX
    } else {
        a + b
    }
}

impl Store {
    /// Per-file diff coverage for the lines a diff added, under union
    /// semantics across all reports. Returns one row per file with at
    /// least one instrumentable added line, in path order, plus the total
    /// covered and total instrumentable added lines (saturating at
    /// `usize::MAX`).
    pub fn diff_coverage(&self, diff_lines: &crate::diff::DiffLines) -> (r: (
        Vec<crate::model::FileDiffCoverage>,
        usize,
        usize,
    ))
        requires
            forall|a: int, b: int|
                0 <= a < b < diff_lines@.len() ==> (#[trigger] diff_lines@[a]).0 != (
                #[trigger] diff_lines@[b]).0,
        ensures
            r.1 == sat_usize(spec_sum_covered(r.0@)),
            r.2 == sat_usize(spec_sum_instr(r.0@)),
            forall|k: int| 0 <= k < r.0@.len() ==> file_diff_ok(self@, diff_lines@, #[trigger] &r.0@[k]),
            forall|e: int|
                0 <= e < diff_lines@.len() && entry_has_instr(self@, #[trigger] diff_lines@[e])
                    ==> exists|k: int| 0 <= k < r.0@.len() && (#[trigger] r.0@[k]).path@
                    == diff_lines@[e].0,
            forall|a: int, b: int|
                0 <= a < b < r.0@.len() ==> (#[trigger] r.0@[a]).path@ != (
                #[trigger] r.0@[b]).path@,
            forall|a: int|
                0 <= a && a + 1 < r.0@.len() ==> !spec_path_lt(
                    (#[trigger] r.0@[a + 1]).path@,
                    r.0@[a].path@,
                ),
    {
        let ghost dv = diff_lines@;
        let mut out: Vec<crate::model::FileDiffCoverage> = Vec::new();
        let mut total_covered: usize = 0;
        let mut total_instr: usize = 0;
        let n = diff_lines.entries.len();
        let mut e: usize = 0;
        while e < n
            invariant
                n == diff_lines.entries@.len(),
                dv == diff_lines@,
                dv.len() == n,
                forall|a: int, b: int|
                    0 <= a < b < dv.len() ==> (#[trigger] dv[a]).0 != (#[trigger] dv[b]).0,
                0 <= e <= n,
                total_covered == sat_usize(spec_sum_covered(out@)),
                total_instr == sat_usize(spec_sum_instr(out@)),
                forall|k: int| 0 <= k < out@.len() ==> file_diff_ok(self@, dv, #[trigger] &out@[k]),
                forall|x: int|
                    0 <= x < e && entry_has_instr(self@, #[trigger] dv[x]) ==> exists|k: int|
                        0 <= k < out@.len() && (#[trigger] out@[k]).path@ == dv[x].0,
                forall|k2: int|
                    0 <= k2 < out@.len() ==> exists|x: int|
                        0 <= x < e && (#[trigger] out@[k2]).path@ == dv[x].0,
                forall|a: int, b: int|
                    0 <= a < b < out@.len() ==> (#[trigger] out@[a]).path@ != (
                    #[trigger] out@[b]).path@,
                forall|a: int|
                    0 <= a && a + 1 < out@.len() ==> !spec_path_lt(
                        (#[trigger] out@[a + 1]).path@,
                        out@[a].path@,
                    ),
            decreases n - e,
        {
            proof {
                assert(dv[e as int] == (diff_lines.entries@[e as int].0@, diff_lines.entries@[e as int].1@));
            }
            let path: &String = &diff_lines.entries[e].0;
            let lines: &Vec<u32> = &diff_lines.entries[e].1;
            let ghost out_old = out@;
            if self.contains_path(path.as_str()) {
                // Gather the entry's instrumentable lines, deduplicated and
                // sorted.
                let mut cands: Vec<u32> = Vec::new();
                let m = lines.len();
                let mut j: usize = 0;
                while j < m
                    invariant
                        m == lines@.len(),
                        dv == diff_lines@,
                        e < n == dv.len(),
                        dv[e as int].1 == lines@,
                        dv[e as int].0 == path@,
                        0 <= j <= m,
                        sorted_strict(cands@),
                        forall|ln: u32|
                            #[trigger] cands@.contains(ln) <==> (exists|b: int|
                                0 <= b < j && #[trigger] lines@[b] == ln && is_instrumented(
                                    self@.reports,
                                    path@,
                                    ln,
                                )),
                    decreases m - j,
                {
                    let ln = lines[j];
                    let ghost c_old = cands@;
                    let instr = match eff_line_hit_exec(&self.reports, path.as_str(), ln) {
                        Some(_) => true,
                        None => false,
                    };
                    if instr {
                        insert_sorted_u32(&mut cands, ln);
                    }
                    proof {
                        assert forall|y: u32| #[trigger] cands@.contains(y) <==> (exists|b: int|
                            0 <= b < j + 1 && #[trigger] lines@[b] == y && is_instrumented(
                                self@.reports,
                                path@,
                                y,
                            )) by {
                            if cands@.contains(y) {
                                if c_old.contains(y) {
                                } else {
                                    assert(y == ln && instr);
                                    assert(lines@[j as int] == y);
                                }
                            } else {
                                if exists|b: int|
                                    0 <= b < j + 1 && #[trigger] lines@[b] == y && is_instrumented(
                                        self@.reports,
                                        path@,
                                        y,
                                    ) {
                                    let b = choose|b: int|
                                        0 <= b < j + 1 && #[trigger] lines@[b] == y
                                            && is_instrumented(self@.reports, path@, y);
                                    if b < j {
                                        assert(c_old.contains(y));
                                        assert(cands@.contains(y));
                                    } else {
                                        assert(y == ln);
                                        assert(cands@.contains(y));
                                    }
                                }
                            }
                        }
                    }
                    j += 1;
                }
                if cands.len() > 0 {
                    // Partition by effective hit count.
                    let mut covered: Vec<u32> = Vec::new();
                    let mut missed: Vec<u32> = Vec::new();
                    let c = cands.len();
                    let mut k: usize = 0;
                    while k < c
                        invariant
                            c == cands@.len(),
                            dv == diff_lines@,
                            e < n == dv.len(),
                            dv[e as int].1 == lines@,
                            dv[e as int].0 == path@,
                            sorted_strict(cands@),
                            forall|ln: u32|
                                #[trigger] cands@.contains(ln) <==> (lines@.contains(ln)
                                    && is_instrumented(self@.reports, path@, ln)),
                            0 <= k <= c,
                            sorted_strict(covered@),
                            sorted_strict(missed@),
                            forall|q: int|
                                0 <= q < covered@.len() ==> (k < c ==> #[trigger] covered@[q]
                                    < cands@[k as int]),
                            forall|q: int|
                                0 <= q < missed@.len() ==> (k < c ==> #[trigger] missed@[q]
                                    < cands@[k as int]),
                            covered@.len() + missed@.len() == k,
                            forall|ln: u32|
                                #[trigger] covered@.contains(ln) <==> (cands@.take(
                                    k as int,
                                ).contains(ln) && (eff_line_hit(self@.reports, path@, ln)
                                    matches Some(h)
                                    && h > 0)),
                            forall|ln: u32|
                                #[trigger] missed@.contains(ln) <==> (cands@.take(
                                    k as int,
                                ).contains(ln) && eff_line_hit(self@.reports, path@, ln) == Some(
                                    0u64,
                                )),
                        decreases c - k,
                    {
                        let ln = cands[k];
                        proof {
                            assert(cands@.contains(ln));
                        }
                        let ghost cov_old = covered@;
                        let ghost mis_old = missed@;
                        let h = match eff_line_hit_exec(&self.reports, path.as_str(), ln) {
                            Some(h) => h,
                            None => {
                                // Unreachable: candidates are instrumented.
                                assert(false);
                                0
                            },
                        };
                        if h > 0 {
                            covered.push(ln);
                        } else {
                            missed.push(ln);
                        }
                        proof {
                            assert(forall|q: int|
                                0 <= q < cands@.take(k as int).len() ==> #[trigger] cands@.take(
                                    k as int,
                                )[q] == cands@[q]);
                            assert(cands@.take(k + 1).last() == cands@[k as int]);
                            assert(forall|q: int|
                                0 <= q < k ==> #[trigger] cands@.take(k + 1)[q] == cands@[q]);
                            assert forall|y: u32| #[trigger] covered@.contains(y) <==> (cands@.take(
                                k + 1,
                            ).contains(y) && (eff_line_hit(self@.reports, path@, y) matches Some(h2)
                                && h2 > 0)) by {
                                if covered@.contains(y) {
                                    if cov_old.contains(y) {
                                        let q = choose|q: int|
                                            0 <= q < cands@.take(k as int).len() && cands@.take(
                                                k as int,
                                            )[q] == y;
                                        assert(cands@.take(k + 1)[q] == y);
                                    } else {
                                        assert(y == ln);
                                        assert(cands@.take(k + 1)[k as int] == y);
                                    }
                                } else {
                                    if cands@.take(k + 1).contains(y) && (eff_line_hit(
                                        self@.reports,
                                        path@,
                                        y,
                                    ) matches Some(h2) && h2 > 0) {
                                        let ck = cands@.take(k + 1);
                                        let q = choose|q: int|
                                            0 <= q < ck.len() && #[trigger] ck[q] == y;
                                        if q < k {
                                            assert(cands@.take(k as int)[q] == y);
                                            assert(cov_old.contains(y));
                                            let w = choose|w: int|
                                                0 <= w < cov_old.len() && #[trigger] cov_old[w]
                                                    == y;
                                            assert(covered@[w] == y);
                                            assert(covered@.contains(y));
                                        } else {
                                            assert(y == ln);
                                            assert(h > 0);
                                            assert(covered@[covered@.len() - 1] == ln);
                                            assert(covered@.contains(y));
                                        }
                                    }
                                }
                            }
                            assert forall|y: u32| #[trigger] missed@.contains(y) <==> (cands@.take(
                                k + 1,
                            ).contains(y) && eff_line_hit(self@.reports, path@, y) == Some(
                                0u64,
                            )) by {
                                if missed@.contains(y) {
                                    if mis_old.contains(y) {
                                        let q = choose|q: int|
                                            0 <= q < cands@.take(k as int).len() && cands@.take(
                                                k as int,
                                            )[q] == y;
                                        assert(cands@.take(k + 1)[q] == y);
                                    } else {
                                        assert(y == ln);
                                        assert(cands@.take(k + 1)[k as int] == y);
                                    }
                                } else {
                                    if cands@.take(k + 1).contains(y) && eff_line_hit(
                                        self@.reports,
                                        path@,
                                        y,
                                    ) == Some(0u64) {
                                        let ck = cands@.take(k + 1);
                                        let q = choose|q: int|
                                            0 <= q < ck.len() && #[trigger] ck[q] == y;
                                        if q < k {
                                            assert(cands@.take(k as int)[q] == y);
                                            assert(mis_old.contains(y));
                                            let w = choose|w: int|
                                                0 <= w < mis_old.len() && #[trigger] mis_old[w]
                                                    == y;
                                            assert(missed@[w] == y);
                                            assert(missed@.contains(y));
                                        } else {
                                            assert(y == ln);
                                            assert(missed@[missed@.len() - 1] == ln);
                                            assert(missed@.contains(y));
                                        }
                                    }
                                }
                            }
                        }
                        k += 1;
                    }
                    proof {
                        assert(cands@.take(c as int) =~= cands@);
                    }
                    let fdc = crate::model::FileDiffCoverage {
                        path: clone_string(path),
                        covered_lines: covered,
                        missed_lines: missed,
                    };
                    let cov_len = fdc.covered_lines.len();
                    let mis_len = fdc.missed_lines.len();
                    proof {
                        lemma_diff_entry_lines(dv, e as int);
                        assert(file_diff_ok(self@, dv, &fdc));
                    }
                    let ghost rowg = fdc;
                    proof {
                        assert(rowg.path@ == dv[e as int].0);
                    }
                    let j = insert_fdc_sorted(&mut out, fdc);
                    total_covered = sat_add_usize(total_covered, cov_len);
                    total_instr = sat_add_usize(total_instr, cov_len);
                    total_instr = sat_add_usize(total_instr, mis_len);
                    proof {
                        lemma_diff_insert_step(
                            self@,
                            dv,
                            e as int,
                            j as int,
                            out_old,
                            out@,
                            rowg,
                        );
                        assert(spec_sum_covered(out@) == spec_sum_covered(out_old) + cov_len);
                        assert(spec_sum_instr(out@) == spec_sum_instr(out_old) + cov_len
                            + mis_len);
                    }
                } else {
                    proof {
                        assert forall|x: int|
                            0 <= x < e + 1 && entry_has_instr(self@, #[trigger] dv[x]) implies exists|k2: int|
                            0 <= k2 < out@.len() && (#[trigger] out@[k2]).path@ == dv[x].0 by {
                            if x == e {
                                let b = choose|b: int|
                                    0 <= b < dv[x].1.len() && is_instrumented(
                                        self@.reports,
                                        dv[x].0,
                                        #[trigger] dv[x].1[b],
                                    );
                                assert(lines@[b] == dv[x].1[b]);
                                assert(cands@.contains(dv[x].1[b]));
                                assert(false);
                            }
                        }
                        assert forall|k2: int| 0 <= k2 < out@.len() implies exists|x: int|
                            0 <= x < e + 1 && (#[trigger] out@[k2]).path@ == dv[x].0 by {
                            let x = choose|x: int|
                                0 <= x < e && (#[trigger] out@[k2]).path@ == dv[x].0;
                            assert(0 <= x < e + 1 && out@[k2].path@ == dv[x].0);
                        }
                    }
                }
            } else {
                proof {
                    assert forall|x: int|
                        0 <= x < e + 1 && entry_has_instr(self@, #[trigger] dv[x]) implies exists|k2: int|
                        0 <= k2 < out@.len() && (#[trigger] out@[k2]).path@ == dv[x].0 by {
                        if x == e {
                            assert(self@.source_files.contains(dv[x].0));
                            assert(false);
                        }
                    }
                    assert forall|k2: int| 0 <= k2 < out@.len() implies exists|x: int|
                        0 <= x < e + 1 && (#[trigger] out@[k2]).path@ == dv[x].0 by {
                        let x = choose|x: int|
                            0 <= x < e && (#[trigger] out@[k2]).path@ == dv[x].0;
                        assert(0 <= x < e + 1 && out@[k2].path@ == dv[x].0);
                    }
                }
            }
            e += 1;
        }
        (out, total_covered, total_instr)
    }
}


// ---------------------------------------------------------------------------
// Laws of the store
// ---------------------------------------------------------------------------


/// Sums split over concatenation.
proof fn lemma_sum_covered_concat(
    a: Seq<crate::model::FileDiffCoverage>,
    b: Seq<crate::model::FileDiffCoverage>,
)
    ensures
        spec_sum_covered(a + b) == spec_sum_covered(a) + spec_sum_covered(b),
    decreases b.len(),
{
    if b.len() == 0 {
        assert(a + b =~= a);
    } else {
        lemma_sum_covered_concat(a, b.drop_last());
        assert((a + b).drop_last() =~= a + b.drop_last());
        assert((a + b).last() == b.last());
    }
}

/// Sums split over concatenation.
proof fn lemma_sum_instr_concat(
    a: Seq<crate::model::FileDiffCoverage>,
    b: Seq<crate::model::FileDiffCoverage>,
)
    ensures
        spec_sum_instr(a + b) == spec_sum_instr(a) + spec_sum_instr(b),
    decreases b.len(),
{
    if b.len() == 0 {
        assert(a + b =~= a);
    } else {
        lemma_sum_instr_concat(a, b.drop_last());
        assert((a + b).drop_last() =~= a + b.drop_last());
        assert((a + b).last() == b.last());
    }
}

/// One sorted insertion of a diff row re-establishes every per-row fact:
/// sums grow by the new row, well-formedness, provenance, completeness,
/// distinct paths and path order carry over.
#[verifier::rlimit(100)]
proof fn lemma_diff_insert_step(
    s: StoreView,
    dv: Seq<(Seq<char>, Seq<u32>)>,
    e: int,
    j: int,
    out_old: Seq<crate::model::FileDiffCoverage>,
    out_new: Seq<crate::model::FileDiffCoverage>,
    rowg: crate::model::FileDiffCoverage,
)
    requires
        0 <= e < dv.len(),
        forall|a: int, b: int| 0 <= a < b < dv.len() ==> (#[trigger] dv[a]).0 != (#[trigger] dv[b]).0,
        0 <= j <= out_old.len(),
        out_new == out_old.subrange(0, j) + seq![rowg] + out_old.subrange(
            j,
            out_old.len() as int,
        ),
        forall|k: int| 0 <= k < j ==> !spec_path_lt(rowg.path@, (#[trigger] out_old[k]).path@),
        j < out_old.len() ==> spec_path_lt(rowg.path@, out_old[j].path@),
        file_diff_ok(s, dv, &rowg),
        rowg.path@ == dv[e].0,
        forall|k: int| 0 <= k < out_old.len() ==> file_diff_ok(s, dv, #[trigger] &out_old[k]),
        forall|x: int|
            0 <= x < e && entry_has_instr(s, #[trigger] dv[x]) ==> exists|k: int|
                0 <= k < out_old.len() && (#[trigger] out_old[k]).path@ == dv[x].0,
        forall|k2: int|
            0 <= k2 < out_old.len() ==> exists|x: int|
                0 <= x < e && (#[trigger] out_old[k2]).path@ == dv[x].0,
        forall|a: int, b: int|
            0 <= a < b < out_old.len() ==> (#[trigger] out_old[a]).path@ != (
            #[trigger] out_old[b]).path@,
        forall|a: int|
            0 <= a && a + 1 < out_old.len() ==> !spec_path_lt(
                (#[trigger] out_old[a + 1]).path@,
                out_old[a].path@,
            ),
    ensures
        spec_sum_covered(out_new) == spec_sum_covered(out_old) + rowg.covered_lines@.len(),
        spec_sum_instr(out_new) == spec_sum_instr(out_old) + rowg.covered_lines@.len()
            + rowg.missed_lines@.len(),
        forall|k: int| 0 <= k < out_new.len() ==> file_diff_ok(s, dv, #[trigger] &out_new[k]),
        forall|x: int|
            0 <= x < e + 1 && entry_has_instr(s, #[trigger] dv[x]) ==> exists|k: int|
                0 <= k < out_new.len() && (#[trigger] out_new[k]).path@ == dv[x].0,
        forall|k2: int|
            0 <= k2 < out_new.len() ==> exists|x: int|
                0 <= x < e + 1 && (#[trigger] out_new[k2]).path@ == dv[x].0,
        forall|a: int, b: int|
            0 <= a < b < out_new.len() ==> (#[trigger] out_new[a]).path@ != (
            #[trigger] out_new[b]).path@,
        forall|a: int|
            0 <= a && a + 1 < out_new.len() ==> !spec_path_lt(
                (#[trigger] out_new[a + 1]).path@,
                out_new[a].path@,
            ),
{
    let pre = out_old.subrange(0, j);
    let post = out_old.subrange(j, out_old.len() as int);
    assert(forall|k: int| 0 <= k < j ==> #[trigger] out_new[k] == out_old[k]);
    assert(forall|k: int| j < k < out_new.len() ==> #[trigger] out_new[k] == out_old[k - 1]);
    assert(out_new[j] == rowg);
    assert(out_old =~= pre + post);
    lemma_sum_covered_concat(pre, post);
    lemma_sum_instr_concat(pre, post);
    assert(out_new =~= (pre + seq![rowg]) + post);
    lemma_sum_covered_concat(pre + seq![rowg], post);
    lemma_sum_instr_concat(pre + seq![rowg], post);
    lemma_sum_covered_concat(pre, seq![rowg]);
    lemma_sum_instr_concat(pre, seq![rowg]);
    assert(seq![rowg].drop_last() =~= Seq::<crate::model::FileDiffCoverage>::empty());
    assert(seq![rowg].last() == rowg);
    assert(spec_sum_covered(Seq::<crate::model::FileDiffCoverage>::empty()) == 0);
    assert(spec_sum_instr(Seq::<crate::model::FileDiffCoverage>::empty()) == 0);
    assert(spec_sum_covered(seq![rowg]) == rowg.covered_lines@.len());
    assert(spec_sum_instr(seq![rowg]) == rowg.covered_lines@.len() + rowg.missed_lines@.len());
    assert forall|k: int| 0 <= k < out_new.len() implies file_diff_ok(
        s,
        dv,
        #[trigger] &out_new[k],
    ) by {
        if k < j {
            assert(out_new[k] == out_old[k]);
        } else if k == j {
            assert(out_new[k] == rowg);
        } else {
            assert(out_new[k] == out_old[k - 1]);
        }
    }
    assert forall|x: int| 0 <= x < e + 1 && entry_has_instr(s, #[trigger] dv[x]) implies exists|
        k: int,
    | 0 <= k < out_new.len() && (#[trigger] out_new[k]).path@ == dv[x].0 by {
        if x < e {
            let k = choose|k: int|
                0 <= k < out_old.len() && (#[trigger] out_old[k]).path@ == dv[x].0;
            if k < j {
                assert(out_new[k].path@ == dv[x].0);
            } else {
                assert(out_new[k + 1] == out_old[k]);
                assert(out_new[k + 1].path@ == dv[x].0);
            }
        } else {
            assert(out_new[j].path@ == dv[e].0);
        }
    }
    assert forall|k2: int| 0 <= k2 < out_new.len() implies exists|x: int|
        0 <= x < e + 1 && (#[trigger] out_new[k2]).path@ == dv[x].0 by {
        if k2 < j {
            assert(out_new[k2] == out_old[k2]);
            let x = choose|x: int| 0 <= x < e && (#[trigger] out_old[k2]).path@ == dv[x].0;
            assert(0 <= x < e + 1 && out_new[k2].path@ == dv[x].0);
        } else if k2 == j {
            assert(out_new[k2].path@ == dv[e].0);
        } else {
            assert(out_new[k2] == out_old[k2 - 1]);
            let x = choose|x: int| 0 <= x < e && (#[trigger] out_old[k2 - 1]).path@ == dv[x].0;
            assert(0 <= x < e + 1 && out_new[k2].path@ == dv[x].0);
        }
    }
    assert forall|a: int, b: int| 0 <= a < b < out_new.len() implies (
    #[trigger] out_new[a]).path@ != (#[trigger] out_new[b]).path@ by {
        if a == j {
            assert(out_new[b] == out_old[b - 1]);
            let x = choose|x: int| 0 <= x < e && (#[trigger] out_old[b - 1]).path@ == dv[x].0;
            assert(dv[x].0 != dv[e].0);
        } else if b == j {
            assert(out_new[a] == out_old[a]);
            let x = choose|x: int| 0 <= x < e && (#[trigger] out_old[a]).path@ == dv[x].0;
            assert(dv[x].0 != dv[e].0);
        } else {
            let a2 = if a < j {
                a
            } else {
                a - 1
            };
            let b2 = if b < j {
                b
            } else {
                b - 1
            };
            assert(out_new[a] == out_old[a2]);
            assert(out_new[b] == out_old[b2]);
            assert(0 <= a2 < b2 < out_old.len());
        }
    }
    assert forall|a: int| 0 <= a && a + 1 < out_new.len() implies !spec_path_lt(
        (#[trigger] out_new[a + 1]).path@,
        out_new[a].path@,
    ) by {
        if a + 1 < j {
            assert(out_new[a] == out_old[a]);
            assert(out_new[a + 1] == out_old[a + 1]);
            assert(!spec_path_lt(out_old[a + 1].path@, out_old[a].path@));
        } else if a + 1 == j {
            assert(out_new[a] == out_old[a]);
            assert(out_new[a + 1] == rowg);
            assert(!spec_path_lt(rowg.path@, out_old[a].path@));
        } else if a == j {
            assert(out_new[a] == rowg);
            assert(out_new[a + 1] == out_old[j]);
            assert(spec_path_lt(rowg.path@, out_old[j].path@));
            crate::text::lemma_bytes_lt_asym(
                vstd::utf8::encode_utf8(rowg.path@),
                vstd::utf8::encode_utf8(out_old[j].path@),
            );
        } else {
            assert(out_new[a] == out_old[a - 1]);
            assert(out_new[a + 1] == out_old[a]);
            assert(!spec_path_lt(out_old[(a - 1) + 1].path@, out_old[a - 1].path@));
        }
    }
}

/// A diff row inserted in path order, after equals; the position taken.
fn insert_fdc_sorted(
    rows: &mut Vec<crate::model::FileDiffCoverage>,
    row: crate::model::FileDiffCoverage,
) -> (j: usize)
    ensures
        j <= old(rows)@.len(),
        final(rows)@ == old(rows)@.subrange(0, j as int) + seq![row] + old(rows)@.subrange(
            j as int,
            old(rows)@.len() as int,
        ),
        forall|k: int| 0 <= k < j ==> !spec_path_lt(row.path@, (#[trigger] old(rows)@[k]).path@),
        j < old(rows)@.len() ==> spec_path_lt(row.path@, old(rows)@[j as int].path@),
{
    let ghost orig = rows@;
    let ghost pv = row.path@;
    let n = rows.len();
    let mut j: usize = 0;
    while j < n
        invariant
            n == rows@.len(),
            rows@ == orig,
            orig == old(rows)@,
            pv == row.path@,
            0 <= j <= n,
            forall|k: int| 0 <= k < j ==> !spec_path_lt(pv, (#[trigger] orig[k]).path@),
        decreases n - j,
    {
        if crate::text::bytes_lt(
            row.path.as_str().as_bytes(),
            rows[j].path.as_str().as_bytes(),
        ) {
            proof {
                assert(spec_path_lt(pv, orig[j as int].path@));
            }
            rows.insert(j, row);
            proof {
                assert(rows@ =~= orig.subrange(0, j as int) + seq![row] + orig.subrange(
                    j as int,
                    orig.len() as int,
                ));
            }
            return j;
        }
        j += 1;
    }
    rows.push(row);
    proof {
        assert(rows@ =~= orig.subrange(0, n as int) + seq![row] + orig.subrange(
            n as int,
            orig.len() as int,
        ));
    }
    n
}

/// Union semantics: when exactly two stored reports record counts for a
/// file's line, the effective count is the larger of the two.
pub proof fn lemma_union_two_reports(
    reports: Seq<StoredReportView>,
    i: int,
    j: int,
    path: Seq<char>,
    ln: u32,
    c1: u64,
    c2: u64,
)
    requires
        0 <= i < j < reports.len(),
        report_line_hit(reports[i], path, ln) == Some(c1),
        report_line_hit(reports[j], path, ln) == Some(c2),
        forall|k: int|
            0 <= k < reports.len() && k != i && k != j ==> report_line_hit(
                #[trigger] reports[k],
                path,
                ln,
            ) is None,
    ensures
        eff_line_hit(reports, path, ln) == Some(
            if c1 >= c2 {
                c1
            } else {
                c2
            },
        ),
    decreases reports.len(),
{
    let rest = reports.drop_first();
    assert(forall|k: int| 0 <= k < rest.len() ==> #[trigger] rest[k] == reports[k + 1]);
    if i == 0 {
        lemma_one_report(rest, j - 1, path, ln, c2);
    } else {
        lemma_union_two_reports(rest, i - 1, j - 1, path, ln, c1, c2);
        assert(report_line_hit(reports[0], path, ln) is None);
    }
}

/// When exactly one stored report records a count for a file's line, the
/// effective count is that count.
pub proof fn lemma_one_report(
    reports: Seq<StoredReportView>,
    i: int,
    path: Seq<char>,
    ln: u32,
    c: u64,
)
    requires
        0 <= i < reports.len(),
        report_line_hit(reports[i], path, ln) == Some(c),
        forall|k: int|
            0 <= k < reports.len() && k != i ==> report_line_hit(
                #[trigger] reports[k],
                path,
                ln,
            ) is None,
    ensures
        eff_line_hit(reports, path, ln) == Some(c),
    decreases reports.len(),
{
    let rest = reports.drop_first();
    assert(forall|k: int| 0 <= k < rest.len() ==> #[trigger] rest[k] == reports[k + 1]);
    if i == 0 {
        lemma_no_report(rest, path, ln);
    } else {
        lemma_one_report(rest, i - 1, path, ln, c);
        assert(report_line_hit(reports[0], path, ln) is None);
    }
}

/// When no stored report records a count for a file's line, there is no
/// effective count.
pub proof fn lemma_no_report(reports: Seq<StoredReportView>, path: Seq<char>, ln: u32)
    requires
        forall|k: int|
            0 <= k < reports.len() ==> report_line_hit(#[trigger] reports[k], path, ln) is None,
    ensures
        eff_line_hit(reports, path, ln) is None,
    decreases reports.len(),
{
    if reports.len() > 0 {
        let rest = reports.drop_first();
        assert(forall|k: int| 0 <= k < rest.len() ==> #[trigger] rest[k] == reports[k + 1]);
        lemma_no_report(rest, path, ln);
        assert(report_line_hit(reports[0], path, ln) is None);
    }
}

/// Deleting removes exactly the named report: every survivor was stored
/// under another name, every report stored under another name survives,
/// in order.
pub proof fn lemma_remove_named_exact(reports: Seq<StoredReportView>, name: Seq<char>)
    ensures
        forall|k: int|
            0 <= k < remove_named(reports, name).len() ==> reports.contains(
                #[trigger] remove_named(reports, name)[k],
            ) && remove_named(reports, name)[k].name != name,
        forall|i: int|
            0 <= i < reports.len() && (#[trigger] reports[i]).name != name ==> remove_named(
                reports,
                name,
            ).contains(reports[i]),
    decreases reports.len(),
{
    let out = remove_named(reports, name);
    if reports.len() > 0 {
        let rest = reports.drop_first();
        assert(forall|k: int| 0 <= k < rest.len() ==> #[trigger] rest[k] == reports[k + 1]);
        lemma_remove_named_exact(rest, name);
        let out2 = remove_named(rest, name);
        if reports[0].name == name {
            assert(out == out2);
            assert forall|k: int| 0 <= k < out.len() implies reports.contains(#[trigger] out[k])
                && out[k].name != name by {
                assert(rest.contains(out2[k]));
                let w = choose|w: int| 0 <= w < rest.len() && rest[w] == out2[k];
                assert(reports[w + 1] == out2[k]);
            }
            assert forall|i: int|
                0 <= i < reports.len() && (#[trigger] reports[i]).name != name implies out.contains(
                reports[i],
            ) by {
                assert(i > 0);
                assert(rest[i - 1] == reports[i]);
                assert(out2.contains(reports[i]));
            }
        } else {
            assert(out =~= seq![reports[0]] + out2);
            assert(forall|k: int| 0 <= k < out2.len() ==> out[k + 1] == #[trigger] out2[k]);
            assert forall|k: int| 0 <= k < out.len() implies reports.contains(#[trigger] out[k])
                && out[k].name != name by {
                if k == 0 {
                    assert(reports[0] == out[0]);
                    assert(reports.contains(reports[0]));
                } else {
                    assert(out[k] == out2[k - 1]);
                    assert(rest.contains(out2[k - 1]));
                    let w = choose|w: int| 0 <= w < rest.len() && rest[w] == out2[k - 1];
                    assert(reports[w + 1] == out2[k - 1]);
                }
            }
            assert forall|i: int|
                0 <= i < reports.len() && (#[trigger] reports[i]).name != name implies out.contains(
                reports[i],
            ) by {
                if i == 0 {
                    assert(out[0] == reports[0]);
                } else {
                    assert(rest[i - 1] == reports[i]);
                    assert(out2.contains(reports[i]));
                    let w = choose|w: int| 0 <= w < out2.len() && out2[w] == reports[i];
                    assert(out[w + 1] == reports[i]);
                }
            }
        }
    }
}

/// Purging keeps exactly the stored paths that remaining coverage rows
/// still reference: no orphaned source file survives, and no referenced
/// one is lost.
pub proof fn lemma_purge_exact(table: Seq<Seq<char>>, reports: Seq<StoredReportView>)
    ensures
        forall|p: Seq<char>|
            #[trigger] spec_purge(table, reports).contains(p) <==> (table.contains(p)
                && path_referenced(reports, p)),
    decreases table.len(),
{
    let out = spec_purge(table, reports);
    if table.len() > 0 {
        let rest = table.drop_first();
        assert(forall|k: int| 0 <= k < rest.len() ==> #[trigger] rest[k] == table[k + 1]);
        lemma_purge_exact(rest, reports);
        let out2 = spec_purge(rest, reports);
        assert forall|p: Seq<char>| #[trigger] out.contains(p) implies (table.contains(p)
            && path_referenced(reports, p)) by {
            if path_referenced(reports, table[0]) {
                assert(out =~= seq![table[0]] + out2);
                let k = choose|k: int| 0 <= k < out.len() && out[k] == p;
                if k == 0 {
                    assert(table[0] == p);
                    assert(table.contains(p));
                } else {
                    assert(out2[k - 1] == p);
                    assert(out2.contains(p));
                    let w = choose|w: int| 0 <= w < rest.len() && rest[w] == p;
                    assert(table[w + 1] == p);
                }
            } else {
                assert(out == out2);
                assert(out2.contains(p));
                let w = choose|w: int| 0 <= w < rest.len() && rest[w] == p;
                assert(table[w + 1] == p);
            }
        }
        assert forall|p: Seq<char>| (table.contains(p) && path_referenced(
            reports,
            p,
        )) implies #[trigger] out.contains(p) by {
            let k = choose|k: int| 0 <= k < table.len() && table[k] == p;
            if k == 0 {
                assert(out =~= seq![table[0]] + out2);
                assert(out[0] == p);
            } else {
                assert(rest[k - 1] == p);
                assert(rest.contains(p));
                assert(out2.contains(p));
                let w = choose|w: int| 0 <= w < out2.len() && out2[w] == p;
                if path_referenced(reports, table[0]) {
                    assert(out =~= seq![table[0]] + out2);
                    assert(out[w + 1] == p);
                } else {
                    assert(out == out2);
                }
            }
        }
    }
}

/// A report's recorded line counts depend only on its file entries.
proof fn lemma_report_hit_files_only(r1: StoredReportView, r2: StoredReportView, path: Seq<char>, ln: u32)
    requires
        r1.files == r2.files,
    ensures
        report_line_hit(r1, path, ln) == report_line_hit(r2, path, ln),
    decreases r1.files.len(),
{
    if r1.files.len() > 0 && r1.files[0].path != path {
        lemma_report_hit_files_only(
            StoredReportView { files: r1.files.drop_first(), ..r1 },
            StoredReportView { files: r2.files.drop_first(), ..r2 },
            path,
            ln,
        );
    }
}

/// Overwrite idempotence: replacing a report with one holding the same
/// file entries leaves every effective line count unchanged. Ingesting
/// the same payload twice with overwrite enabled therefore answers
/// queries exactly as ingesting it once does.
pub proof fn lemma_overwrite_idempotent(
    base: Seq<StoredReportView>,
    name: Seq<char>,
    rep1: StoredReportView,
    rep2: StoredReportView,
    path: Seq<char>,
    ln: u32,
)
    requires
        rep1.name == name,
        rep2.name == name,
        rep1.files == rep2.files,
    ensures
        eff_line_hit(remove_named(base, name).push(rep1), path, ln) == eff_line_hit(
            remove_named(remove_named(base, name).push(rep1), name).push(rep2),
            path,
            ln,
        ),
{
    let once = remove_named(base, name);
    lemma_remove_push_named(once, rep1, name);
    lemma_remove_named_idem(base, name);
    assert(remove_named(once.push(rep1), name) == remove_named(once, name));
    assert(remove_named(once, name) == once);
    lemma_eff_last_files(once, rep1, rep2, path, ln);
}

/// Removing a name from a list that lacks it changes nothing.
proof fn lemma_remove_named_idem(reports: Seq<StoredReportView>, name: Seq<char>)
    ensures
        remove_named(remove_named(reports, name), name) == remove_named(reports, name),
    decreases reports.len(),
{
    if reports.len() > 0 {
        let rest = reports.drop_first();
        lemma_remove_named_idem(rest, name);
        if reports[0].name == name {
        } else {
            let out2 = remove_named(rest, name);
            assert(remove_named(reports, name) == seq![reports[0]] + out2);
            assert((seq![reports[0]] + out2).drop_first() =~= out2);
            assert(remove_named(seq![reports[0]] + out2, name) == seq![reports[0]] + remove_named(
                out2,
                name,
            ));
        }
    }
}

/// Removing a name after appending a report of that name removes the
/// appended report too.
proof fn lemma_remove_push_named(reports: Seq<StoredReportView>, rep: StoredReportView, name: Seq<char>)
    requires
        rep.name == name,
    ensures
        remove_named(reports.push(rep), name) == remove_named(reports, name),
    decreases reports.len(),
{
    let p = reports.push(rep);
    assert(p.len() == reports.len() + 1);
    if reports.len() == 0 {
        assert(p.drop_first() =~= Seq::<StoredReportView>::empty());
        assert(p[0] == rep);
        assert(remove_named(p, name) == remove_named(p.drop_first(), name));
        assert(remove_named(Seq::<StoredReportView>::empty(), name) == Seq::<
            StoredReportView,
        >::empty());
        assert(remove_named(reports, name) == Seq::<StoredReportView>::empty());
    } else {
        lemma_remove_push_named(reports.drop_first(), rep, name);
        assert(p.drop_first() =~= reports.drop_first().push(rep));
        assert(p[0] == reports[0]);
        if reports[0].name == name {
            assert(remove_named(p, name) == remove_named(p.drop_first(), name));
            assert(remove_named(p.drop_first(), name) == remove_named(
                reports.drop_first().push(rep),
                name,
            ));
        } else {
            assert(remove_named(p, name) == seq![p[0]] + remove_named(p.drop_first(), name));
            assert(remove_named(reports, name) == seq![reports[0]] + remove_named(
                reports.drop_first(),
                name,
            ));
        }
    }
}

/// Appending reports with the same file entries to the same base yields
/// the same effective counts.
proof fn lemma_eff_last_files(
    base: Seq<StoredReportView>,
    rep1: StoredReportView,
    rep2: StoredReportView,
    path: Seq<char>,
    ln: u32,
)
    requires
        rep1.files == rep2.files,
    ensures
        eff_line_hit(base.push(rep1), path, ln) == eff_line_hit(base.push(rep2), path, ln),
    decreases base.len(),
{
    if base.len() == 0 {
        assert(base.push(rep1)[0] == rep1);
        assert(base.push(rep2)[0] == rep2);
        assert(base.push(rep1).drop_first() =~= Seq::<StoredReportView>::empty());
        assert(base.push(rep2).drop_first() =~= Seq::<StoredReportView>::empty());
        lemma_report_hit_files_only(rep1, rep2, path, ln);
    } else {
        lemma_eff_last_files(base.drop_first(), rep1, rep2, path, ln);
        assert(base.push(rep1)[0] == base[0]);
        assert(base.push(rep2)[0] == base[0]);
        assert(base.push(rep1).drop_first() =~= base.drop_first().push(rep1));
        assert(base.push(rep2).drop_first() =~= base.drop_first().push(rep2));
    }
}

/// With distinct file paths, folding parsed records appends one entry per
/// record, in order; with distinct line numbers, a record's rows are kept
/// as they are.
proof fn lemma_upsert_lines_unique(rows: Seq<LineCoverage>, add: Seq<LineCoverage>)
    requires
        forall|a: int, b: int|
            0 <= a < b < add.len() ==> (#[trigger] add[a]).line_number != (
            #[trigger] add[b]).line_number,
        forall|a: int, b: int|
            0 <= a < rows.len() && 0 <= b < add.len() ==> (#[trigger] rows[a]).line_number != (
            #[trigger] add[b]).line_number,
    ensures
        upsert_lines(rows, add) == rows + add,
    decreases add.len(),
{
    if add.len() == 0 {
        assert(rows + add =~= rows);
    } else {
        let rest = add.drop_first();
        assert(forall|k: int| 0 <= k < rest.len() ==> #[trigger] rest[k] == add[k + 1]);
        lemma_upsert_line_append(rows, add[0]);
        lemma_upsert_lines_unique(rows.push(add[0]), rest);
        assert(rows.push(add[0]) + rest =~= rows + add);
    }
}

/// Upserting a row whose line number is new appends it.
proof fn lemma_upsert_line_append(rows: Seq<LineCoverage>, lc: LineCoverage)
    requires
        forall|a: int| 0 <= a < rows.len() ==> (#[trigger] rows[a]).line_number != lc.line_number,
    ensures
        upsert_line(rows, lc) == rows.push(lc),
    decreases rows.len(),
{
    lemma_upsert_line(rows, lc, rows.len() as int);
}

/// A record's own line is found among its stored rows with its recorded
/// count.
proof fn lemma_line_hit_unique(rows: Seq<LineCoverage>, k: int)
    requires
        0 <= k < rows.len(),
        forall|a: int, b: int|
            0 <= a < b < rows.len() ==> (#[trigger] rows[a]).line_number != (
            #[trigger] rows[b]).line_number,
    ensures
        line_hit_in_rows(rows, rows[k].line_number) == Some(rows[k].hit_count),
    decreases rows.len(),
{
    if k > 0 {
        let rest = rows.drop_first();
        assert(forall|q: int| 0 <= q < rest.len() ==> #[trigger] rest[q] == rows[q + 1]);
        assert(rows[0].line_number != rows[k].line_number);
        lemma_line_hit_unique(rest, k - 1);
    }
}

/// Ingest visibility: when parsed data holds pairwise distinct file paths
/// and, per file, pairwise distinct line numbers, the single report built
/// from it records exactly each file's lines with their recorded counts —
/// so in a store holding only this report, `get_lines` returns each of
/// them unchanged.
pub proof fn lemma_ingest_visible(data: Seq<FileCoverageView>, e: int, k: int)
    requires
        0 <= e < data.len(),
        0 <= k < data[e].lines.len(),
        forall|a: int, b: int|
            0 <= a < b < data.len() ==> (#[trigger] data[a]).path != (#[trigger] data[b]).path,
        forall|f: int, a: int, b: int|
            0 <= f < data.len() && 0 <= a < b < (#[trigger] data[f]).lines.len() ==> (
            #[trigger] data[f].lines[a]).line_number != (#[trigger] data[f].lines[b]).line_number,
    ensures
        ({
            let rep = StoredReportView {
                id: 0,
                name: Seq::empty(),
                source_format: Seq::empty(),
                source_file: None,
                created_at: Seq::empty(),
                files: build_files(Seq::empty(), data),
            };
            report_line_hit(rep, data[e].path, data[e].lines[k].line_number) == Some(
                data[e].lines[k].hit_count,
            )
        }),
{
    lemma_build_files_unique(Seq::empty(), data);
    let files = build_files(Seq::empty(), data);
    assert(files =~= Seq::empty() + fresh_entries(data));
    lemma_fresh_entries_shape(data);
    assert(files[e] == fresh_entry(data[e]));
    let rep = StoredReportView {
        id: 0,
        name: Seq::empty(),
        source_format: Seq::empty(),
        source_file: None,
        created_at: Seq::empty(),
        files,
    };
    assert(report_file(rep, data[e].path) == Some(files[e])) by {
        lemma_report_file_find(rep, data[e].path, e);
    }
    assert(files[e].lines == data[e].lines) by {
        lemma_upsert_lines_unique(Seq::empty(), data[e].lines);
        assert(Seq::empty() + data[e].lines =~= data[e].lines);
    }
    lemma_line_hit_unique(data[e].lines, k);
}

/// The fresh entry built for one parsed record.
pub open spec fn fresh_entry(fc: FileCoverageView) -> StoredFileView {
    StoredFileView {
        path: fc.path,
        lines: upsert_lines(Seq::empty(), fc.lines),
        branches: upsert_branches(Seq::empty(), fc.branches),
        functions: upsert_functions(Seq::empty(), fc.functions),
    }
}

/// The entries built for records with pairwise distinct paths.
pub open spec fn fresh_entries(data: Seq<FileCoverageView>) -> Seq<StoredFileView>
    decreases data.len(),
{
    if data.len() == 0 {
        Seq::empty()
    } else {
        seq![fresh_entry(data[0])] + fresh_entries(data.drop_first())
    }
}

proof fn lemma_fresh_entries_shape(data: Seq<FileCoverageView>)
    ensures
        fresh_entries(data).len() == data.len(),
        forall|k: int|
            0 <= k < data.len() ==> #[trigger] fresh_entries(data)[k] == fresh_entry(data[k]),
    decreases data.len(),
{
    if data.len() > 0 {
        let rest = data.drop_first();
        assert(forall|k: int| 0 <= k < rest.len() ==> #[trigger] rest[k] == data[k + 1]);
        lemma_fresh_entries_shape(rest);
        assert(forall|k: int|
            1 <= k < data.len() ==> #[trigger] fresh_entries(data)[k] == fresh_entries(rest)[k
                - 1]);
    }
}

/// With pairwise distinct paths, the fold appends a fresh entry per
/// record.
proof fn lemma_build_files_unique(files: Seq<StoredFileView>, data: Seq<FileCoverageView>)
    requires
        forall|a: int, b: int|
            0 <= a < b < data.len() ==> (#[trigger] data[a]).path != (#[trigger] data[b]).path,
        forall|a: int, b: int|
            0 <= a < files.len() && 0 <= b < data.len() ==> (#[trigger] files[a]).path != (
            #[trigger] data[b]).path,
    ensures
        build_files(files, data) == files + fresh_entries(data),
    decreases data.len(),
{
    if data.len() == 0 {
        assert(files + fresh_entries(data) =~= files);
    } else {
        let rest = data.drop_first();
        assert(forall|k: int| 0 <= k < rest.len() ==> #[trigger] rest[k] == data[k + 1]);
        lemma_add_file(files, data[0], files.len() as int);
        assert(add_file(files, data[0]) =~= files.push(fresh_entry(data[0])));
        lemma_build_files_unique(files.push(fresh_entry(data[0])), rest);
        assert(files.push(fresh_entry(data[0])) + fresh_entries(rest) =~= files + fresh_entries(
            data,
        ));
    }
}

/// Looking up a path whose first match among the entries sits at `e`.
proof fn lemma_report_file_find(rep: StoredReportView, path: Seq<char>, e: int)
    requires
        0 <= e < rep.files.len(),
        rep.files[e].path == path,
        forall|k: int| 0 <= k < e ==> (#[trigger] rep.files[k]).path != path,
    ensures
        report_file(rep, path) == Some(rep.files[e]),
    decreases e,
{
    if e > 0 {
        let r2 = StoredReportView { files: rep.files.drop_first(), ..rep };
        assert(forall|k: int| 0 <= k < r2.files.len() ==> #[trigger] r2.files[k] == rep.files[k + 1]);
        lemma_report_file_find(r2, path, e - 1);
    }
}


// ---------------------------------------------------------------------------
// Summaries
// ---------------------------------------------------------------------------

/// `x` recorded once: appended unless already present.
pub open spec fn add_unique_u32(s: Seq<u32>, x: u32) -> Seq<u32> {
    if s.contains(x) {
        s
    } else {
        s.push(x)
    }
}

/// The distinct line numbers of the rows, appended to `acc`.
pub open spec fn line_keys_of_rows(acc: Seq<u32>, rows: Seq<LineCoverage>) -> Seq<u32>
    decreases rows.len(),
{
    if rows.len() == 0 {
        acc
    } else {
        line_keys_of_rows(add_unique_u32(acc, rows[0].line_number), rows.drop_first())
    }
}

/// The distinct line numbers any report records for `path`.
pub open spec fn line_keys(acc: Seq<u32>, reports: Seq<StoredReportView>, path: Seq<char>) -> Seq<
    u32,
>
    decreases reports.len(),
{
    if reports.len() == 0 {
        acc
    } else {
        let acc2 = match report_file(reports[0], path) {
            None => acc,
            Some(f) => line_keys_of_rows(acc, f.lines),
        };
        line_keys(acc2, reports.drop_first(), path)
    }
}

/// A branch key recorded once.
pub open spec fn add_unique_pair(s: Seq<(u32, u32)>, x: (u32, u32)) -> Seq<(u32, u32)> {
    if s.contains(x) {
        s
    } else {
        s.push(x)
    }
}

/// The distinct branch keys of the rows, appended to `acc`.
pub open spec fn branch_keys_of_rows(acc: Seq<(u32, u32)>, rows: Seq<BranchCoverage>) -> Seq<
    (u32, u32),
>
    decreases rows.len(),
{
    if rows.len() == 0 {
        acc
    } else {
        branch_keys_of_rows(
            add_unique_pair(acc, (rows[0].line_number, rows[0].branch_index)),
            rows.drop_first(),
        )
    }
}

/// The distinct branch keys any report records for `path`.
pub open spec fn branch_keys(
    acc: Seq<(u32, u32)>,
    reports: Seq<StoredReportView>,
    path: Seq<char>,
) -> Seq<(u32, u32)>
    decreases reports.len(),
{
    if reports.len() == 0 {
        acc
    } else {
        let acc2 = match report_file(reports[0], path) {
            None => acc,
            Some(f) => branch_keys_of_rows(acc, f.branches),
        };
        branch_keys(acc2, reports.drop_first(), path)
    }
}

/// A function key recorded once.
pub open spec fn add_unique_fn(
    s: Seq<(Seq<char>, Option<u32>)>,
    x: (Seq<char>, Option<u32>),
) -> Seq<(Seq<char>, Option<u32>)> {
    if s.contains(x) {
        s
    } else {
        s.push(x)
    }
}

/// The distinct function keys of the rows, appended to `acc`.
pub open spec fn function_keys_of_rows(
    acc: Seq<(Seq<char>, Option<u32>)>,
    rows: Seq<FunctionCoverageView>,
) -> Seq<(Seq<char>, Option<u32>)>
    decreases rows.len(),
{
    if rows.len() == 0 {
        acc
    } else {
        function_keys_of_rows(
            add_unique_fn(acc, (rows[0].name, rows[0].start_line)),
            rows.drop_first(),
        )
    }
}

/// The distinct function keys any report records for `path`.
pub open spec fn function_keys(
    acc: Seq<(Seq<char>, Option<u32>)>,
    reports: Seq<StoredReportView>,
    path: Seq<char>,
) -> Seq<(Seq<char>, Option<u32>)>
    decreases reports.len(),
{
    if reports.len() == 0 {
        acc
    } else {
        let acc2 = match report_file(reports[0], path) {
            None => acc,
            Some(f) => function_keys_of_rows(acc, f.functions),
        };
        function_keys(acc2, reports.drop_first(), path)
    }
}

/// How many of the line keys are covered under union semantics.
pub open spec fn count_cov_lines(
    reports: Seq<StoredReportView>,
    path: Seq<char>,
    keys: Seq<u32>,
) -> int
    decreases keys.len(),
{
    if keys.len() == 0 {
        0
    } else {
        count_cov_lines(reports, path, keys.drop_last()) + (if eff_line_hit(
            reports,
            path,
            keys.last(),
        ) matches Some(h) && h > 0 {
            1int
        } else {
            0int
        })
    }
}

/// How many of the branch keys are covered under union semantics.
pub open spec fn count_cov_branches(
    reports: Seq<StoredReportView>,
    path: Seq<char>,
    keys: Seq<(u32, u32)>,
) -> int
    decreases keys.len(),
{
    if keys.len() == 0 {
        0
    } else {
        count_cov_branches(reports, path, keys.drop_last()) + (if eff_branch_hit(
            reports,
            path,
            keys.last().0,
            keys.last().1,
        ) matches Some(h) && h > 0 {
            1int
        } else {
            0int
        })
    }
}

/// How many of the function keys are covered under union semantics.
pub open spec fn count_cov_functions(
    reports: Seq<StoredReportView>,
    path: Seq<char>,
    keys: Seq<(Seq<char>, Option<u32>)>,
) -> int
    decreases keys.len(),
{
    if keys.len() == 0 {
        0
    } else {
        count_cov_functions(reports, path, keys.drop_last()) + (if eff_function_hit(
            reports,
            path,
            keys.last().0,
            keys.last().1,
        ) matches Some(h) && h > 0 {
            1int
        } else {
            0int
        })
    }
}

/// Per-path summary tuples over the source-file table, in table order:
/// path, line totals, branch totals; paths without line rows are skipped.
pub open spec fn spec_file_summaries(s: StoreView, table: Seq<Seq<char>>) -> Seq<
    (Seq<char>, int, int, int, int),
>
    decreases table.len(),
{
    if table.len() == 0 {
        Seq::empty()
    } else {
        let prev = spec_file_summaries(s, table.drop_last());
        let p = table.last();
        let lk = line_keys(Seq::empty(), s.reports, p);
        if lk.len() == 0 {
            prev
        } else {
            let bk = branch_keys(Seq::empty(), s.reports, p);
            prev.push(
                (
                    p,
                    lk.len() as int,
                    count_cov_lines(s.reports, p, lk),
                    bk.len() as int,
                    count_cov_branches(s.reports, p, bk),
                ),
            )
        }
    }
}

/// `v` capped at the top of the `u64` range.
pub open spec fn sat_u64(v: int) -> int {
    if v <= u64::MAX {
        v
    } else {
        u64::MAX as int
    }
}

fn sat_add_u64(a: u64, b: u64) -> (r: u64)
    ensures
        r == sat_u64(a + b),
{
    if a > u64::MAX - b {
        u64::MAX
    } else {
        a + b
    }
}

/// Whether the pair list holds `x`.
fn contains_pair(s: &Vec<(u32, u32)>, x: (u32, u32)) -> (r: bool)
    ensures
        r == s@.contains(x),
{
    let n = s.len();
    let mut i: usize = 0;
    while i < n
        invariant
            n == s@.len(),
            0 <= i <= n,
            forall|j: int| 0 <= j < i ==> s@[j] != x,
        decreases n - i,
    {
        if s[i].0 == x.0 && s[i].1 == x.1 {
            assert(s@[i as int] == x);
            assert(s@.contains(x));
            return true;
        }
        i += 1;
    }
    proof {
        if s@.contains(x) {
            let k = choose|k: int| 0 <= k < s@.len() && s@[k] == x;
            assert(s@[k] != x);
        }
    }
    false
}

/// The mathematical image of a function-key list.
pub open spec fn view_fn_keys(keys: &Vec<(String, Option<u32>)>) -> Seq<(Seq<char>, Option<u32>)> {
    Seq::new(keys@.len(), |i: int| (keys@[i].0@, keys@[i].1))
}

/// Whether the function-key list holds `x`.
fn contains_fn_key(s: &Vec<(String, Option<u32>)>, name: &String, start: &Option<u32>) -> (r: bool)
    ensures
        r == view_fn_keys(s).contains((name@, *start)),
{
    let n = s.len();
    let mut i: usize = 0;
    while i < n
        invariant
            n == s@.len(),
            0 <= i <= n,
            forall|j: int| 0 <= j < i ==> #[trigger] view_fn_keys(s)[j] != (name@, *start),
        decreases n - i,
    {
        if str_eq(s[i].0.as_str(), name.as_str()) && opt_u32_eq(&s[i].1, start) {
            assert(view_fn_keys(s)[i as int] == (name@, *start));
            assert(view_fn_keys(s).contains((name@, *start)));
            return true;
        }
        i += 1;
    }
    proof {
        if view_fn_keys(s).contains((name@, *start)) {
            let k = choose|k: int|
                0 <= k < view_fn_keys(s).len() && view_fn_keys(s)[k] == (name@, *start);
            assert(view_fn_keys(s)[k] != (name@, *start));
        }
    }
    false
}

impl Store {
    /// The distinct line numbers any report records for `path`.
    fn line_keys_exec(&self, path: &str) -> (r: Vec<u32>)
        ensures
            r@ == line_keys(Seq::empty(), self@.reports, path@),
    {
        let ghost rv = self@.reports;
        let mut keys: Vec<u32> = Vec::new();
        let n = self.reports.len();
        let mut i: usize = 0;
        proof {
            assert(rv.skip(0) =~= rv);
        }
        while i < n
            invariant
                n == self.reports@.len(),
                rv == self@.reports,
                rv.len() == n,
                0 <= i <= n,
                line_keys(Seq::empty(), rv, path@) == line_keys(keys@, rv.skip(i as int), path@),
            decreases n - i,
        {
            proof {
                assert(rv.skip(i as int)[0] == rv[i as int]);
                assert(rv.skip(i as int).drop_first() =~= rv.skip(i + 1));
                assert(rv[i as int] == self.reports@[i as int]@);
            }
            match report_file_exec(&self.reports[i], path) {
                None => {},
                Some(f) => {
                    let ghost keys0 = keys@;
                    let m = f.lines.len();
                    let mut j: usize = 0;
                    proof {
                        assert(f.lines@.skip(0) =~= f.lines@);
                    }
                    while j < m
                        invariant
                            m == f.lines@.len(),
                            0 <= j <= m,
                            line_keys_of_rows(keys0, f.lines@) == line_keys_of_rows(
                                keys@,
                                f.lines@.skip(j as int),
                            ),
                        decreases m - j,
                    {
                        proof {
                            assert(f.lines@.skip(j as int)[0] == f.lines@[j as int]);
                            assert(f.lines@.skip(j as int).drop_first() =~= f.lines@.skip(j + 1));
                        }
                        let ln = f.lines[j].line_number;
                        if !contains_u32_vec(&keys, ln) {
                            keys.push(ln);
                        }
                        j += 1;
                    }
                    proof {
                        assert(f.lines@.skip(m as int) =~= Seq::<LineCoverage>::empty());
                    }
                },
            }
            i += 1;
        }
        proof {
            assert(rv.skip(n as int) =~= Seq::<StoredReportView>::empty());
        }
        keys
    }
}

/// Whether the vector holds `x`.
fn contains_u32_vec(s: &Vec<u32>, x: u32) -> (r: bool)
    ensures
        r == s@.contains(x),
{
    let n = s.len();
    let mut i: usize = 0;
    while i < n
        invariant
            n == s@.len(),
            0 <= i <= n,
            forall|j: int| 0 <= j < i ==> s@[j] != x,
        decreases n - i,
    {
        if s[i] == x {
            assert(s@.contains(x));
            return true;
        }
        i += 1;
    }
    proof {
        if s@.contains(x) {
            let k = choose|k: int| 0 <= k < s@.len() && s@[k] == x;
            assert(s@[k] != x);
        }
    }
    false
}


impl Store {
    /// The distinct branch keys any report records for `path`.
    fn branch_keys_exec(&self, path: &str) -> (r: Vec<(u32, u32)>)
        ensures
            r@ == branch_keys(Seq::empty(), self@.reports, path@),
    {
        let ghost rv = self@.reports;
        let mut keys: Vec<(u32, u32)> = Vec::new();
        let n = self.reports.len();
        let mut i: usize = 0;
        proof {
            assert(rv.skip(0) =~= rv);
        }
        while i < n
            invariant
                n == self.reports@.len(),
                rv == self@.reports,
                rv.len() == n,
                0 <= i <= n,
                branch_keys(Seq::empty(), rv, path@) == branch_keys(
                    keys@,
                    rv.skip(i as int),
                    path@,
                ),
            decreases n - i,
        {
            proof {
                assert(rv.skip(i as int)[0] == rv[i as int]);
                assert(rv.skip(i as int).drop_first() =~= rv.skip(i + 1));
                assert(rv[i as int] == self.reports@[i as int]@);
            }
            match report_file_exec(&self.reports[i], path) {
                None => {},
                Some(f) => {
                    let ghost keys0 = keys@;
                    let m = f.branches.len();
                    let mut j: usize = 0;
                    proof {
                        assert(f.branches@.skip(0) =~= f.branches@);
                    }
                    while j < m
                        invariant
                            m == f.branches@.len(),
                            0 <= j <= m,
                            branch_keys_of_rows(keys0, f.branches@) == branch_keys_of_rows(
                                keys@,
                                f.branches@.skip(j as int),
                            ),
                        decreases m - j,
                    {
                        proof {
                            assert(f.branches@.skip(j as int)[0] == f.branches@[j as int]);
                            assert(f.branches@.skip(j as int).drop_first() =~= f.branches@.skip(
                                j + 1,
                            ));
                        }
                        let key = (f.branches[j].line_number, f.branches[j].branch_index);
                        if !contains_pair(&keys, key) {
                            keys.push(key);
                        }
                        j += 1;
                    }
                    proof {
                        assert(f.branches@.skip(m as int) =~= Seq::<BranchCoverage>::empty());
                    }
                },
            }
            i += 1;
        }
        proof {
            assert(rv.skip(n as int) =~= Seq::<StoredReportView>::empty());
        }
        keys
    }

    /// The distinct function keys any report records for `path`.
    fn function_keys_exec(&self, path: &str) -> (r: Vec<(String, Option<u32>)>)
        ensures
            view_fn_keys(&r) == function_keys(Seq::empty(), self@.reports, path@),
    {
        let ghost rv = self@.reports;
        let mut keys: Vec<(String, Option<u32>)> = Vec::new();
        let n = self.reports.len();
        let mut i: usize = 0;
        proof {
            assert(rv.skip(0) =~= rv);
            assert(view_fn_keys(&keys) =~= Seq::<(Seq<char>, Option<u32>)>::empty());
        }
        while i < n
            invariant
                n == self.reports@.len(),
                rv == self@.reports,
                rv.len() == n,
                0 <= i <= n,
                function_keys(Seq::empty(), rv, path@) == function_keys(
                    view_fn_keys(&keys),
                    rv.skip(i as int),
                    path@,
                ),
            decreases n - i,
        {
            proof {
                assert(rv.skip(i as int)[0] == rv[i as int]);
                assert(rv.skip(i as int).drop_first() =~= rv.skip(i + 1));
                assert(rv[i as int] == self.reports@[i as int]@);
            }
            match report_file_exec(&self.reports[i], path) {
                None => {},
                Some(f) => {
                    let ghost keys0 = view_fn_keys(&keys);
                    let m = f.functions.len();
                    let mut j: usize = 0;
                    proof {
                        assert(f.functions.deep_view().skip(0) =~= f.functions.deep_view());
                    }
                    while j < m
                        invariant
                            m == f.functions@.len(),
                            f.functions.deep_view().len() == m,
                            0 <= j <= m,
                            function_keys_of_rows(keys0, f.functions.deep_view())
                                == function_keys_of_rows(
                                view_fn_keys(&keys),
                                f.functions.deep_view().skip(j as int),
                            ),
                        decreases m - j,
                    {
                        proof {
                            assert(f.functions.deep_view().skip(j as int)[0]
                                == f.functions.deep_view()[j as int]);
                            assert(f.functions.deep_view().skip(j as int).drop_first()
                                =~= f.functions.deep_view().skip(j + 1));
                            assert(f.functions.deep_view()[j as int] == f.functions@[j as int]@);
                        }
                        let ghost kv0 = view_fn_keys(&keys);
                        let name = clone_string(&f.functions[j].name);
                        let start = f.functions[j].start_line;
                        if !contains_fn_key(&keys, &name, &start) {
                            keys.push((name, start));
                            proof {
                                assert(view_fn_keys(&keys) =~= kv0.push((name@, start)));
                            }
                        }
                        j += 1;
                    }
                    proof {
                        assert(f.functions.deep_view().skip(m as int) =~= Seq::<
                            FunctionCoverageView,
                        >::empty());
                    }
                },
            }
            i += 1;
        }
        proof {
            assert(rv.skip(n as int) =~= Seq::<StoredReportView>::empty());
        }
        keys
    }

    /// How many of the line keys are covered.
    fn count_cov_lines_exec(&self, path: &str, keys: &Vec<u32>) -> (r: u64)
        ensures
            r == sat_u64(count_cov_lines(self@.reports, path@, keys@)),
    {
        let mut cnt: u64 = 0;
        let n = keys.len();
        let mut i: usize = 0;
        proof {
            assert(keys@.take(0) =~= Seq::<u32>::empty());
        }
        while i < n
            invariant
                n == keys@.len(),
                0 <= i <= n,
                cnt == sat_u64(count_cov_lines(self@.reports, path@, keys@.take(i as int))),
            decreases n - i,
        {
            proof {
                assert(keys@.take(i + 1).drop_last() =~= keys@.take(i as int));
                assert(keys@.take(i + 1).last() == keys@[i as int]);
            }
            let covered = match eff_line_hit_exec(&self.reports, path, keys[i]) {
                Some(h) => h > 0,
                None => false,
            };
            if covered {
                cnt = sat_add_u64(cnt, 1);
            }
            i += 1;
        }
        proof {
            assert(keys@.take(n as int) =~= keys@);
        }
        cnt
    }

    /// The effective hit count of a branch arm across all reports.
    fn eff_branch_hit_exec(&self, path: &str, ln: u32, idx: u32) -> (r: Option<u64>)
        ensures
            r == eff_branch_hit(self@.reports, path@, ln, idx),
    {
        let ghost rv = self@.reports;
        let mut acc: Option<u64> = None;
        let n = self.reports.len();
        let mut i: usize = 0;
        proof {
            assert(rv.skip(0) =~= rv);
        }
        while i < n
            invariant
                n == self.reports@.len(),
                rv == self@.reports,
                rv.len() == n,
                0 <= i <= n,
                eff_branch_hit(rv, path@, ln, idx) == combine_hits(
                    acc,
                    eff_branch_hit(rv.skip(i as int), path@, ln, idx),
                ),
            decreases n - i,
        {
            proof {
                assert(rv.skip(i as int)[0] == rv[i as int]);
                assert(rv.skip(i as int).drop_first() =~= rv.skip(i + 1));
                assert(rv[i as int] == self.reports@[i as int]@);
            }
            let h = match report_file_exec(&self.reports[i], path) {
                Some(f) => branch_hit_in_rows_exec(&f.branches, ln, idx),
                None => None,
            };
            proof {
                lemma_combine_assoc(
                    acc,
                    report_branch_hit(rv[i as int], path@, ln, idx),
                    eff_branch_hit(rv.skip(i + 1), path@, ln, idx),
                );
            }
            acc = combine_hits_exec(acc, h);
            i += 1;
        }
        proof {
            assert(rv.skip(n as int) =~= Seq::<StoredReportView>::empty());
        }
        acc
    }

    /// The effective hit count of a function across all reports.
    fn eff_function_hit_exec(&self, path: &str, name: &String, start: &Option<u32>) -> (r: Option<
        u64,
    >)
        ensures
            r == eff_function_hit(self@.reports, path@, name@, *start),
    {
        let ghost rv = self@.reports;
        let mut acc: Option<u64> = None;
        let n = self.reports.len();
        let mut i: usize = 0;
        proof {
            assert(rv.skip(0) =~= rv);
        }
        while i < n
            invariant
                n == self.reports@.len(),
                rv == self@.reports,
                rv.len() == n,
                0 <= i <= n,
                eff_function_hit(rv, path@, name@, *start) == combine_hits(
                    acc,
                    eff_function_hit(rv.skip(i as int), path@, name@, *start),
                ),
            decreases n - i,
        {
            proof {
                assert(rv.skip(i as int)[0] == rv[i as int]);
                assert(rv.skip(i as int).drop_first() =~= rv.skip(i + 1));
                assert(rv[i as int] == self.reports@[i as int]@);
            }
            let h = match report_file_exec(&self.reports[i], path) {
                Some(f) => function_hit_in_rows_exec(&f.functions, name, start),
                None => None,
            };
            proof {
                lemma_combine_assoc(
                    acc,
                    report_function_hit(rv[i as int], path@, name@, *start),
                    eff_function_hit(rv.skip(i + 1), path@, name@, *start),
                );
            }
            acc = combine_hits_exec(acc, h);
            i += 1;
        }
        proof {
            assert(rv.skip(n as int) =~= Seq::<StoredReportView>::empty());
        }
        acc
    }

    /// How many of the branch keys are covered.
    fn count_cov_branches_exec(&self, path: &str, keys: &Vec<(u32, u32)>) -> (r: u64)
        ensures
            r == sat_u64(count_cov_branches(self@.reports, path@, keys@)),
    {
        let mut cnt: u64 = 0;
        let n = keys.len();
        let mut i: usize = 0;
        proof {
            assert(keys@.take(0) =~= Seq::<(u32, u32)>::empty());
        }
        while i < n
            invariant
                n == keys@.len(),
                0 <= i <= n,
                cnt == sat_u64(count_cov_branches(self@.reports, path@, keys@.take(i as int))),
            decreases n - i,
        {
            proof {
                assert(keys@.take(i + 1).drop_last() =~= keys@.take(i as int));
                assert(keys@.take(i + 1).last() == keys@[i as int]);
            }
            let covered = match self.eff_branch_hit_exec(path, keys[i].0, keys[i].1) {
                Some(h) => h > 0,
                None => false,
            };
            if covered {
                cnt = sat_add_u64(cnt, 1);
            }
            i += 1;
        }
        proof {
            assert(keys@.take(n as int) =~= keys@);
        }
        cnt
    }

    /// How many of the function keys are covered.
    fn count_cov_functions_exec(&self, path: &str, keys: &Vec<(String, Option<u32>)>) -> (r: u64)
        ensures
            r == sat_u64(count_cov_functions(self@.reports, path@, view_fn_keys(keys))),
    {
        let ghost kv = view_fn_keys(keys);
        let mut cnt: u64 = 0;
        let n = keys.len();
        let mut i: usize = 0;
        proof {
            assert(kv.take(0) =~= Seq::<(Seq<char>, Option<u32>)>::empty());
        }
        while i < n
            invariant
                n == keys@.len(),
                kv == view_fn_keys(keys),
                kv.len() == n,
                0 <= i <= n,
                cnt == sat_u64(count_cov_functions(self@.reports, path@, kv.take(i as int))),
            decreases n - i,
        {
            proof {
                assert(kv.take(i + 1).drop_last() =~= kv.take(i as int));
                assert(kv.take(i + 1).last() == kv[i as int]);
            }
            let covered = match self.eff_function_hit_exec(path, &keys[i].0, &keys[i].1) {
                Some(h) => h > 0,
                None => false,
            };
            if covered {
                cnt = sat_add_u64(cnt, 1);
            }
            i += 1;
        }
        proof {
            assert(kv.take(n as int) =~= kv);
        }
        cnt
    }

    /// The covered and total instrumentable line counts of one file, or
    /// nothing when no report holds a line row for it.
    pub fn get_file_line_rate(&self, path: &str) -> (r: Option<(u64, u64)>)
        ensures
            match r {
                Some(p) => {
                    &&& line_keys(Seq::empty(), self@.reports, path@).len() > 0
                    &&& p.0 == sat_u64(
                        count_cov_lines(
                            self@.reports,
                            path@,
                            line_keys(Seq::empty(), self@.reports, path@),
                        ),
                    )
                    &&& p.1 == sat_u64(line_keys(Seq::empty(), self@.reports, path@).len() as int)
                },
                None => line_keys(Seq::empty(), self@.reports, path@).len() == 0,
            },
    {
        let keys = self.line_keys_exec(path);
        if keys.len() == 0 {
            return None;
        }
        let covered = self.count_cov_lines_exec(path, &keys);
        let total = sat_len(keys.len());
        Some((covered, total))
    }

    /// Summary counts across all reports with union semantics; refused
    /// when the store holds no report.
    pub fn get_summary(&self) -> (r: Result<crate::model::ReportSummary, CovrsError>)
        ensures
            match r {
                Ok(s) => {
                    &&& self@.reports.len() > 0
                    &&& s.total_files == sat_u64(spec_total_files(self@, self@.source_files))
                    &&& s.total_lines == sat_u64(spec_total_lines(self@, self@.source_files))
                    &&& s.covered_lines == sat_u64(spec_cov_lines(self@, self@.source_files))
                    &&& s.total_branches == sat_u64(spec_total_branches(self@, self@.source_files))
                    &&& s.covered_branches == sat_u64(spec_cov_branches(self@, self@.source_files))
                    &&& s.total_functions == sat_u64(
                        spec_total_functions(self@, self@.source_files),
                    )
                    &&& s.covered_functions == sat_u64(
                        spec_cov_functions(self@, self@.source_files),
                    )
                },
                Err(e) => {
                    &&& self@.reports.len() == 0
                    &&& e is NoReports
                },
            },
    {
        if self.reports.len() == 0 {
            return Err(CovrsError::NoReports);
        }
        let ghost table = self@.source_files;
        let mut total_files: u64 = 0;
        let mut total_lines: u64 = 0;
        let mut covered_lines: u64 = 0;
        let mut total_branches: u64 = 0;
        let mut covered_branches: u64 = 0;
        let mut total_functions: u64 = 0;
        let mut covered_functions: u64 = 0;
        let n = self.source_files.len();
        let mut i: usize = 0;
        proof {
            assert(table.take(0) =~= Seq::<Seq<char>>::empty());
        }
        while i < n
            invariant
                n == self.source_files@.len(),
                table == self@.source_files,
                table.len() == n,
                0 <= i <= n,
                total_files == sat_u64(spec_total_files(self@, table.take(i as int))),
                total_lines == sat_u64(spec_total_lines(self@, table.take(i as int))),
                covered_lines == sat_u64(spec_cov_lines(self@, table.take(i as int))),
                total_branches == sat_u64(spec_total_branches(self@, table.take(i as int))),
                covered_branches == sat_u64(spec_cov_branches(self@, table.take(i as int))),
                total_functions == sat_u64(spec_total_functions(self@, table.take(i as int))),
                covered_functions == sat_u64(spec_cov_functions(self@, table.take(i as int))),
            decreases n - i,
        {
            proof {
                assert(table.take(i + 1).drop_last() =~= table.take(i as int));
                assert(table.take(i + 1).last() == table[i as int]);
                assert(table[i as int] == self.source_files@[i as int]@);
            }
            let path = &self.source_files[i];
            let lk = self.line_keys_exec(path.as_str());
            if lk.len() > 0 {
                total_files = sat_add_u64(total_files, 1);
                total_lines = sat_add_u64(total_lines, sat_len(lk.len()));
                covered_lines = sat_add_u64(
                    covered_lines,
                    self.count_cov_lines_exec(path.as_str(), &lk),
                );
            }
            let bk = self.branch_keys_exec(path.as_str());
            total_branches = sat_add_u64(total_branches, sat_len(bk.len()));
            covered_branches = sat_add_u64(
                covered_branches,
                self.count_cov_branches_exec(path.as_str(), &bk),
            );
            let fk = self.function_keys_exec(path.as_str());
            total_functions = sat_add_u64(total_functions, sat_len(fk.len()));
            covered_functions = sat_add_u64(
                covered_functions,
                self.count_cov_functions_exec(path.as_str(), &fk),
            );
            i += 1;
        }
        proof {
            assert(table.take(n as int) =~= table);
        }
        Ok(
            crate::model::ReportSummary {
                total_files,
                total_lines,
                covered_lines,
                total_branches,
                covered_branches,
                total_functions,
                covered_functions,
            },
        )
    }

    /// Per-file coverage summaries across all reports with union
    /// semantics, one row per source file with line rows, in path order.
    pub fn get_file_summaries(&self) -> (r: Vec<crate::model::FileSummary>)
        ensures
            summary_tuples(r@) == spec_sorted_summaries(
                spec_file_summaries(self@, self@.source_files),
            ),
            summaries_sorted(summary_tuples(r@)),
    {
        let ghost table = self@.source_files;
        let mut out: Vec<crate::model::FileSummary> = Vec::new();
        let n = self.source_files.len();
        let mut i: usize = 0;
        proof {
            assert(table.take(0) =~= Seq::<Seq<char>>::empty());
            assert(summary_tuples(out@) =~= spec_sorted_summaries(
                spec_file_summaries(self@, table.take(0)),
            ));
        }
        while i < n
            invariant
                n == self.source_files@.len(),
                table == self@.source_files,
                table.len() == n,
                0 <= i <= n,
                summary_tuples(out@) == spec_sorted_summaries(
                    spec_file_summaries(self@, table.take(i as int)),
                ),
            decreases n - i,
        {
            proof {
                assert(table.take(i + 1).drop_last() =~= table.take(i as int));
                assert(table.take(i + 1).last() == table[i as int]);
                assert(table[i as int] == self.source_files@[i as int]@);
            }
            let ghost prev = spec_file_summaries(self@, table.take(i as int));
            let path = &self.source_files[i];
            let lk = self.line_keys_exec(path.as_str());
            if lk.len() > 0 {
                let bk = self.branch_keys_exec(path.as_str());
                let row = crate::model::FileSummary {
                    path: clone_string(path),
                    total_lines: sat_len(lk.len()),
                    covered_lines: self.count_cov_lines_exec(path.as_str(), &lk),
                    total_branches: sat_len(bk.len()),
                    covered_branches: self.count_cov_branches_exec(path.as_str(), &bk),
                };
                let ghost rowtup = (row.path@, row.total_lines, row.covered_lines,
                    row.total_branches, row.covered_branches);
                proof {
                    let cur = spec_file_summaries(self@, table.take(i + 1));
                    let t = (
                        table[i as int],
                        line_keys(Seq::empty(), self@.reports, table[i as int]).len() as int,
                        count_cov_lines(
                            self@.reports,
                            table[i as int],
                            line_keys(Seq::empty(), self@.reports, table[i as int]),
                        ),
                        branch_keys(Seq::empty(), self@.reports, table[i as int]).len() as int,
                        count_cov_branches(
                            self@.reports,
                            table[i as int],
                            branch_keys(Seq::empty(), self@.reports, table[i as int]),
                        ),
                    );
                    assert(cur == prev.push(t));
                    assert(cur.drop_last() =~= prev);
                    assert(cur.last() == t);
                    assert(rowtup == (t.0, sat_u64(t.1) as u64, sat_u64(t.2) as u64, sat_u64(
                        t.3,
                    ) as u64, sat_u64(t.4) as u64));
                    assert(spec_sorted_summaries(cur) == spec_insert_summary(
                        spec_sorted_summaries(prev),
                        rowtup,
                    ));
                }
                insert_summary_sorted(&mut out, row);
            } else {
                proof {
                    let cur = spec_file_summaries(self@, table.take(i + 1));
                    assert(cur == prev);
                }
            }
            i += 1;
        }
        proof {
            assert(table.take(n as int) =~= table);
            lemma_sorted_summaries_sorted(spec_file_summaries(self@, self@.source_files));
        }
        out
    }
}


/// Path order: byte-wise over the UTF-8 encoding.
pub open spec fn spec_path_lt(a: Seq<char>, b: Seq<char>) -> bool {
    crate::text::spec_bytes_lt(vstd::utf8::encode_utf8(a), vstd::utf8::encode_utf8(b))
}

/// A summary row as plain values.
pub open spec fn summary_tuples(s: Seq<crate::model::FileSummary>) -> Seq<
    (Seq<char>, u64, u64, u64, u64),
> {
    Seq::new(
        s.len(),
        |k: int|
            (
                s[k].path@,
                s[k].total_lines,
                s[k].covered_lines,
                s[k].total_branches,
                s[k].covered_branches,
            ),
    )
}

/// A summary row inserted in path order, after equals.
pub open spec fn spec_insert_summary(
    rows: Seq<(Seq<char>, u64, u64, u64, u64)>,
    t: (Seq<char>, u64, u64, u64, u64),
) -> Seq<(Seq<char>, u64, u64, u64, u64)>
    decreases rows.len(),
{
    if rows.len() == 0 {
        seq![t]
    } else if spec_path_lt(t.0, rows[0].0) {
        seq![t] + rows
    } else {
        seq![rows[0]] + spec_insert_summary(rows.drop_first(), t)
    }
}

/// The summary rows in path order, counts saturated to `u64`.
pub open spec fn spec_sorted_summaries(rows: Seq<(Seq<char>, int, int, int, int)>) -> Seq<
    (Seq<char>, u64, u64, u64, u64),
>
    decreases rows.len(),
{
    if rows.len() == 0 {
        Seq::empty()
    } else {
        let t = rows.last();
        spec_insert_summary(
            spec_sorted_summaries(rows.drop_last()),
            (t.0, sat_u64(t.1) as u64, sat_u64(t.2) as u64, sat_u64(t.3) as u64, sat_u64(t.4) as u64),
        )
    }
}

/// Whether summary rows stand in path order.
pub open spec fn summaries_sorted(rows: Seq<(Seq<char>, u64, u64, u64, u64)>) -> bool {
    forall|k: int|
        0 <= k && k + 1 < rows.len() ==> !spec_path_lt((#[trigger] rows[k + 1]).0, rows[k].0)
}

/// Where `spec_insert_summary` puts the new row: at the first row whose
/// path orders after its path, or at the end.
proof fn lemma_insert_summary_at(
    rows: Seq<(Seq<char>, u64, u64, u64, u64)>,
    t: (Seq<char>, u64, u64, u64, u64),
    j: int,
)
    requires
        0 <= j <= rows.len(),
        forall|k: int| 0 <= k < j ==> !spec_path_lt(t.0, (#[trigger] rows[k]).0),
    ensures
        j < rows.len() && spec_path_lt(t.0, rows[j].0) ==> spec_insert_summary(rows, t)
            =~= rows.subrange(0, j) + seq![t] + rows.subrange(j, rows.len() as int),
        j == rows.len() ==> spec_insert_summary(rows, t) =~= rows.push(t),
    decreases rows.len(),
{
    if rows.len() == 0 {
    } else if spec_path_lt(t.0, rows[0].0) {
        assert(j == 0);
        assert(rows.subrange(0, 0) =~= Seq::<(Seq<char>, u64, u64, u64, u64)>::empty());
        assert(rows.subrange(0, rows.len() as int) =~= rows);
    } else {
        if j > 0 {
            let rest = rows.drop_first();
            assert(forall|k: int| 0 <= k < rest.len() ==> #[trigger] rest[k] == rows[k + 1]);
            lemma_insert_summary_at(rest, t, j - 1);
            if j < rows.len() {
                assert(seq![rows[0]] + (rest.subrange(0, j - 1) + seq![t] + rest.subrange(
                    j - 1,
                    rest.len() as int,
                )) =~= rows.subrange(0, j) + seq![t] + rows.subrange(j, rows.len() as int));
            } else {
                assert(seq![rows[0]] + rest.push(t) =~= rows.push(t));
            }
        }
    }
}

/// Inserting in path order keeps the rows in path order.
proof fn lemma_insert_summary_sorted(
    rows: Seq<(Seq<char>, u64, u64, u64, u64)>,
    t: (Seq<char>, u64, u64, u64, u64),
)
    requires
        summaries_sorted(rows),
    ensures
        summaries_sorted(spec_insert_summary(rows, t)),
    decreases rows.len(),
{
    if rows.len() == 0 {
        assert(spec_insert_summary(rows, t) =~= seq![t]);
    } else if spec_path_lt(t.0, rows[0].0) {
        let r = seq![t] + rows;
        assert forall|k: int| 0 <= k && k + 1 < r.len() implies !spec_path_lt(
            (#[trigger] r[k + 1]).0,
            r[k].0,
        ) by {
            if k == 0 {
                assert(r[0] == t);
                assert(r[1] == rows[0]);
                crate::text::lemma_bytes_lt_asym(
                    vstd::utf8::encode_utf8(t.0),
                    vstd::utf8::encode_utf8(rows[0].0),
                );
            } else {
                assert(r[k] == rows[k - 1]);
                assert(r[k + 1] == rows[k]);
                assert(!spec_path_lt(rows[(k - 1) + 1].0, rows[k - 1].0));
            }
            assert(!spec_path_lt(r[k + 1].0, r[k].0));
        }
        assert(spec_insert_summary(rows, t) == r);
    } else {
        let rest = rows.drop_first();
        assert(forall|k: int| 0 <= k < rest.len() ==> #[trigger] rest[k] == rows[k + 1]);
        assert(summaries_sorted(rest));
        lemma_insert_summary_sorted(rest, t);
        let ri = spec_insert_summary(rest, t);
        let r = seq![rows[0]] + ri;
        assert forall|k: int| 0 <= k && k + 1 < r.len() implies !spec_path_lt(
            (#[trigger] r[k + 1]).0,
            r[k].0,
        ) by {
            assert(r[0] == rows[0]);
            if k == 0 {
                if rest.len() == 0 {
                    assert(ri =~= seq![t]);
                    assert(r[1] == ri[0]);
                    assert(ri[0] == t);
                } else if spec_path_lt(t.0, rest[0].0) {
                    assert(ri =~= seq![t] + rest);
                    assert(r[1] == ri[0]);
                    assert(ri[0] == t);
                } else {
                    assert(ri =~= seq![rest[0]] + spec_insert_summary(rest.drop_first(), t));
                    assert(r[1] == ri[0]);
                    assert(ri[0] == rest[0]);
                    assert(rest[0] == rows[1]);
                }
            } else {
                assert(r[k] == ri[k - 1]);
                assert(r[k + 1] == ri[k]);
                assert(!spec_path_lt(ri[(k - 1) + 1].0, ri[k - 1].0));
            }
            assert(!spec_path_lt(r[k + 1].0, r[k].0));
        }
        assert(spec_insert_summary(rows, t) == r);
    }
}

/// Every run of `spec_sorted_summaries` stands in path order.
proof fn lemma_sorted_summaries_sorted(rows: Seq<(Seq<char>, int, int, int, int)>)
    ensures
        summaries_sorted(spec_sorted_summaries(rows)),
    decreases rows.len(),
{
    if rows.len() == 0 {
    } else {
        lemma_sorted_summaries_sorted(rows.drop_last());
        let t = rows.last();
        lemma_insert_summary_sorted(
            spec_sorted_summaries(rows.drop_last()),
            (t.0, sat_u64(t.1) as u64, sat_u64(t.2) as u64, sat_u64(t.3) as u64, sat_u64(t.4) as u64),
        );
    }
}

/// A summary row inserted in path order, after equals.
fn insert_summary_sorted(rows: &mut Vec<crate::model::FileSummary>, row: crate::model::FileSummary)
    ensures
        summary_tuples(final(rows)@) == spec_insert_summary(
            summary_tuples(old(rows)@),
            (row.path@, row.total_lines, row.covered_lines, row.total_branches,
            row.covered_branches),
        ),
{
    let ghost tup = (row.path@, row.total_lines, row.covered_lines, row.total_branches,
        row.covered_branches);
    let ghost orig = rows@;
    let ghost origt = summary_tuples(rows@);
    let n = rows.len();
    let mut j: usize = 0;
    while j < n
        invariant
            n == rows@.len(),
            rows@ == orig,
            orig == old(rows)@,
            origt == summary_tuples(orig),
            origt.len() == n,
            tup == (row.path@, row.total_lines, row.covered_lines, row.total_branches,
            row.covered_branches),
            0 <= j <= n,
            forall|k: int| 0 <= k < j ==> !spec_path_lt(tup.0, (#[trigger] origt[k]).0),
        decreases n - j,
    {
        proof {
            assert(origt[j as int].0 == orig[j as int].path@);
        }
        let before = crate::text::bytes_lt(
            row.path.as_str().as_bytes(),
            rows[j].path.as_str().as_bytes(),
        );
        proof {
            assert(before == spec_path_lt(row.path@, orig[j as int].path@));
        }
        if before {
            rows.insert(j, row);
            proof {
                lemma_insert_summary_at(origt, tup, j as int);
                assert(spec_insert_summary(origt, tup) =~= origt.subrange(0, j as int) + seq![tup]
                    + origt.subrange(j as int, origt.len() as int));
                assert(summary_tuples(rows@) =~= origt.subrange(0, j as int) + seq![tup]
                    + origt.subrange(j as int, origt.len() as int));
                assert(summary_tuples(rows@) == spec_insert_summary(origt, tup));
            }
            return ;
        }
        j += 1;
    }
    rows.push(row);
    proof {
        lemma_insert_summary_at(origt, tup, n as int);
        assert(summary_tuples(rows@) =~= origt.push(tup));
    }
}

/// The branch row list's answer for one key.
fn branch_hit_in_rows_exec(rows: &Vec<BranchCoverage>, ln: u32, idx: u32) -> (r: Option<u64>)
    ensures
        r == branch_hit_in_rows(rows@, ln, idx),
{
    let n = rows.len();
    let mut i: usize = 0;
    proof {
        assert(rows@.skip(0) =~= rows@);
    }
    while i < n
        invariant
            n == rows@.len(),
            0 <= i <= n,
            branch_hit_in_rows(rows@, ln, idx) == branch_hit_in_rows(
                rows@.skip(i as int),
                ln,
                idx,
            ),
        decreases n - i,
    {
        proof {
            assert(rows@.skip(i as int)[0] == rows@[i as int]);
            assert(rows@.skip(i as int).drop_first() =~= rows@.skip(i + 1));
        }
        if rows[i].line_number == ln && rows[i].branch_index == idx {
            return Some(rows[i].hit_count);
        }
        i += 1;
    }
    proof {
        assert(rows@.skip(n as int) =~= Seq::<BranchCoverage>::empty());
    }
    None
}

/// The function row list's answer for one key.
fn function_hit_in_rows_exec(
    rows: &Vec<FunctionCoverage>,
    name: &String,
    start: &Option<u32>,
) -> (r: Option<u64>)
    ensures
        r == function_hit_in_rows(rows.deep_view(), name@, *start),
{
    let ghost dv = rows.deep_view();
    let n = rows.len();
    let mut i: usize = 0;
    proof {
        assert(dv.skip(0) =~= dv);
    }
    while i < n
        invariant
            n == rows@.len(),
            dv == rows.deep_view(),
            dv.len() == n,
            0 <= i <= n,
            function_hit_in_rows(dv, name@, *start) == function_hit_in_rows(
                dv.skip(i as int),
                name@,
                *start,
            ),
        decreases n - i,
    {
        proof {
            assert(dv.skip(i as int)[0] == dv[i as int]);
            assert(dv.skip(i as int).drop_first() =~= dv.skip(i + 1));
            assert(dv[i as int] == rows@[i as int]@);
        }
        if str_eq(rows[i].name.as_str(), name.as_str()) && opt_u32_eq(&rows[i].start_line, start) {
            return Some(rows[i].hit_count);
        }
        i += 1;
    }
    proof {
        assert(dv.skip(n as int) =~= Seq::<FunctionCoverageView>::empty());
    }
    None
}

/// A length capped into the `u64` range.
fn sat_len(v: usize) -> (r: u64)
    ensures
        r == sat_u64(v as int),
{
    if v as u64 > u64::MAX {
        u64::MAX
    } else {
        v as u64
    }
}

/// Line totals summed over the table, per `line_keys`.
pub open spec fn spec_total_lines(s: StoreView, table: Seq<Seq<char>>) -> int
    decreases table.len(),
{
    if table.len() == 0 {
        0
    } else {
        spec_total_lines(s, table.drop_last()) + line_keys(
            Seq::empty(),
            s.reports,
            table.last(),
        ).len()
    }
}

/// Covered line totals summed over the table.
pub open spec fn spec_cov_lines(s: StoreView, table: Seq<Seq<char>>) -> int
    decreases table.len(),
{
    if table.len() == 0 {
        0
    } else {
        spec_cov_lines(s, table.drop_last()) + count_cov_lines(
            s.reports,
            table.last(),
            line_keys(Seq::empty(), s.reports, table.last()),
        )
    }
}

/// How many table paths have at least one line row.
pub open spec fn spec_total_files(s: StoreView, table: Seq<Seq<char>>) -> int
    decreases table.len(),
{
    if table.len() == 0 {
        0
    } else {
        spec_total_files(s, table.drop_last()) + (if line_keys(
            Seq::empty(),
            s.reports,
            table.last(),
        ).len() > 0 {
            1int
        } else {
            0int
        })
    }
}

/// Branch totals summed over the table.
pub open spec fn spec_total_branches(s: StoreView, table: Seq<Seq<char>>) -> int
    decreases table.len(),
{
    if table.len() == 0 {
        0
    } else {
        spec_total_branches(s, table.drop_last()) + branch_keys(
            Seq::empty(),
            s.reports,
            table.last(),
        ).len()
    }
}

/// Covered branch totals summed over the table.
pub open spec fn spec_cov_branches(s: StoreView, table: Seq<Seq<char>>) -> int
    decreases table.len(),
{
    if table.len() == 0 {
        0
    } else {
        spec_cov_branches(s, table.drop_last()) + count_cov_branches(
            s.reports,
            table.last(),
            branch_keys(Seq::empty(), s.reports, table.last()),
        )
    }
}

/// Function totals summed over the table.
pub open spec fn spec_total_functions(s: StoreView, table: Seq<Seq<char>>) -> int
    decreases table.len(),
{
    if table.len() == 0 {
        0
    } else {
        spec_total_functions(s, table.drop_last()) + function_keys(
            Seq::empty(),
            s.reports,
            table.last(),
        ).len()
    }
}

/// Covered function totals summed over the table.
pub open spec fn spec_cov_functions(s: StoreView, table: Seq<Seq<char>>) -> int
    decreases table.len(),
{
    if table.len() == 0 {
        0
    } else {
        spec_cov_functions(s, table.drop_last()) + count_cov_functions(
            s.reports,
            table.last(),
            function_keys(Seq::empty(), s.reports, table.last()),
        )
    }
}

} // verus!
