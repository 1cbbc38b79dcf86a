//! Uniform in-memory representation of coverage data, independent of any
//! specific input format. Parsers produce `CoverageData`, which the store
//! ingests; queries hand results back in the summary types below.

use vstd::prelude::*;

verus! {

/// A single instrumentable line and how often it was hit.
#[derive(Debug, Clone, Copy, PartialEq, Eq, Structural)]
pub struct LineCoverage {
    pub line_number: u32,
    pub hit_count: u64,
}

/// A single branch arm on a given line. On one line the `branch_index`
/// values form a dense sequence starting at 0.
#[derive(Debug, Clone, Copy, PartialEq, Eq, Structural)]
pub struct BranchCoverage {
    pub line_number: u32,
    pub branch_index: u32,
    pub hit_count: u64,
}

/// A function or method that was instrumentable.
#[derive(Debug, Clone)]
pub struct FunctionCoverage {
    pub name: String,
    pub start_line: Option<u32>,
    pub end_line: Option<u32>,
    pub hit_count: u64,
}

/// Mathematical image of a `FunctionCoverage`.
pub struct FunctionCoverageView {
    pub name: Seq<char>,
    pub start_line: Option<u32>,
    pub end_line: Option<u32>,
    pub hit_count: u64,
}

impl View for FunctionCoverage {
    type V = FunctionCoverageView;

    open spec fn view(&self) -> FunctionCoverageView {
        FunctionCoverageView {
            name: self.name@,
            start_line: self.start_line,
            end_line: self.end_line,
            hit_count: self.hit_count,
        }
    }
}

impl DeepView for FunctionCoverage {
    type V = FunctionCoverageView;

    open spec fn deep_view(&self) -> FunctionCoverageView {
        self.view()
    }
}


/// Whether every line and branch row of a file record sits on line 1 or
/// later.
pub open spec fn rows_positive(f: FileCoverageView) -> bool {
    (forall|j: int| 0 <= j < f.lines.len() ==> (#[trigger] f.lines[j]).line_number >= 1)
        && (forall|j: int|
        0 <= j < f.branches.len() ==> (#[trigger] f.branches[j]).line_number >= 1)
}

/// Coverage data for a single source file.
#[derive(Debug)]
pub struct FileCoverage {
    pub path: String,
    pub lines: Vec<LineCoverage>,
    pub branches: Vec<BranchCoverage>,
    pub functions: Vec<FunctionCoverage>,
}

/// Mathematical image of a `FileCoverage`.
pub struct FileCoverageView {
    pub path: Seq<char>,
    pub lines: Seq<LineCoverage>,
    pub branches: Seq<BranchCoverage>,
    pub functions: Seq<FunctionCoverageView>,
}

impl View for FileCoverage {
    type V = FileCoverageView;

    open spec fn view(&self) -> FileCoverageView {
        FileCoverageView {
            path: self.path@,
            lines: self.lines@,
            branches: self.branches@,
            functions: self.functions.deep_view(),
        }
    }
}

impl DeepView for FileCoverage {
    type V = FileCoverageView;

    open spec fn deep_view(&self) -> FileCoverageView {
        self.view()
    }
}

impl FileCoverage {
    /// A record for `path` with no rows yet.
    pub fn new(path: String) -> (r: FileCoverage)
        ensures
            r@ == (FileCoverageView {
                path: path@,
                lines: Seq::empty(),
                branches: Seq::empty(),
                functions: Seq::empty(),
            }),
    {
        let functions: Vec<FunctionCoverage> = Vec::new();
        proof {
            assert(functions.deep_view() =~= Seq::<FunctionCoverageView>::empty());
        }
        FileCoverage { path, lines: Vec::new(), branches: Vec::new(), functions }
    }
}

/// The complete result of parsing a single coverage input.
#[derive(Debug)]
pub struct CoverageData {
    pub files: Vec<FileCoverage>,
}

impl View for CoverageData {
    type V = Seq<FileCoverageView>;

    open spec fn view(&self) -> Seq<FileCoverageView> {
        self.files.deep_view()
    }
}

impl CoverageData {
    /// An empty result.
    pub fn new() -> (r: CoverageData)
        ensures
            r@.len() == 0,
    {
        CoverageData { files: Vec::new() }
    }
}

/// Summary counts across all reports, with union semantics.
#[derive(Debug, Clone, Copy, PartialEq, Eq, Structural)]
pub struct ReportSummary {
    pub total_files: u64,
    pub total_lines: u64,
    pub covered_lines: u64,
    pub total_branches: u64,
    pub covered_branches: u64,
    pub total_functions: u64,
    pub covered_functions: u64,
}

/// Per-file summary row.
#[derive(Debug)]
pub struct FileSummary {
    pub path: String,
    pub total_lines: u64,
    pub covered_lines: u64,
    pub total_branches: u64,
    pub covered_branches: u64,
}

/// Line-level detail for a source file.
#[derive(Debug, Clone, Copy, PartialEq, Eq, Structural)]
pub struct LineDetail {
    pub line_number: u32,
    pub hit_count: u64,
}

/// Metadata for a stored report.
#[derive(Debug)]
pub struct ReportInfo {
    pub name: String,
    pub format: String,
    pub created_at: String,
}

/// Per-file diff coverage detail.
#[derive(Debug)]
pub struct FileDiffCoverage {
    pub path: String,
    /// Diff lines that are instrumentable and covered.
    pub covered_lines: Vec<u32>,
    /// Diff lines that are instrumentable and not covered.
    pub missed_lines: Vec<u32>,
}

/// A strictly increasing sequence of line numbers.
pub open spec fn sorted_strict(s: Seq<u32>) -> bool {
    forall|i: int, j: int| 0 <= i < j < s.len() ==> s[i] < s[j]
}

impl FileDiffCoverage {
    /// How many diff lines of this file are instrumentable at all.
    pub fn total(&self) -> (r: usize)
        requires
            self.covered_lines@.len() + self.missed_lines@.len() <= usize::MAX,
        ensures
            r == self.covered_lines@.len() + self.missed_lines@.len(),
    {
        self.covered_lines.len() + self.missed_lines.len()
    }

    /// All instrumentable diff lines of this file: the sorted union of the
    /// covered and the missed lines.
    pub fn all_instrumentable(&self) -> (r: Vec<u32>)
        requires
            sorted_strict(self.covered_lines@),
            sorted_strict(self.missed_lines@),
        ensures
            sorted_strict(r@),
            forall|ln: u32|
                #[trigger] r@.contains(ln) <==> (self.covered_lines@.contains(ln)
                    || self.missed_lines@.contains(ln)),
            r@ == spec_merge_lines(self.covered_lines@, self.missed_lines@),
    {
        merge_sorted(&self.covered_lines, &self.missed_lines)
    }
}

/// The strictly sorted union of two strictly sorted line lists.
pub open spec fn spec_merge_lines(a: Seq<u32>, b: Seq<u32>) -> Seq<u32>
    decreases a.len() + b.len(),
{
    if a.len() == 0 {
        b
    } else if b.len() == 0 {
        a
    } else if a[0] < b[0] {
        seq![a[0]] + spec_merge_lines(a.drop_first(), b)
    } else if b[0] < a[0] {
        seq![b[0]] + spec_merge_lines(a, b.drop_first())
    } else {
        seq![a[0]] + spec_merge_lines(a.drop_first(), b.drop_first())
    }
}

/// The merge of sorted inputs is sorted and holds exactly their union.
pub proof fn lemma_merge_lines(a: Seq<u32>, b: Seq<u32>)
    requires
        sorted_strict(a),
        sorted_strict(b),
    ensures
        sorted_strict(spec_merge_lines(a, b)),
        forall|ln: u32|
            #[trigger] spec_merge_lines(a, b).contains(ln) <==> (a.contains(ln) || b.contains(
                ln,
            )),
    decreases a.len() + b.len(),
{
    let out = spec_merge_lines(a, b);
    if a.len() == 0 || b.len() == 0 {
    } else {
        let ra = a.drop_first();
        let rb = b.drop_first();
        assert(forall|k: int| 0 <= k < ra.len() ==> #[trigger] ra[k] == a[k + 1]);
        assert(forall|k: int| 0 <= k < rb.len() ==> #[trigger] rb[k] == b[k + 1]);
        let (head, rest) = if a[0] < b[0] {
            (a[0], spec_merge_lines(ra, b))
        } else if b[0] < a[0] {
            (b[0], spec_merge_lines(a, rb))
        } else {
            (a[0], spec_merge_lines(ra, rb))
        };
        if a[0] < b[0] {
            lemma_merge_lines(ra, b);
        } else if b[0] < a[0] {
            lemma_merge_lines(a, rb);
        } else {
            lemma_merge_lines(ra, rb);
        }
        assert(out =~= seq![head] + rest);
        assert(forall|k: int| 0 <= k < rest.len() ==> #[trigger] out[k + 1] == rest[k]);
        assert forall|ln: u32| #[trigger] out.contains(ln) implies (a.contains(ln) || b.contains(
            ln,
        )) by {
            let k = choose|k: int| 0 <= k < out.len() && out[k] == ln;
            if k == 0 {
                assert(a.contains(a[0]));
                assert(b.contains(b[0]));
            } else {
                assert(rest.contains(out[k]));
                if a[0] < b[0] {
                    if ra.contains(ln) {
                        let q = choose|q: int| 0 <= q < ra.len() && ra[q] == ln;
                        assert(a[q + 1] == ln);
                    }
                } else if b[0] < a[0] {
                    if rb.contains(ln) {
                        let q = choose|q: int| 0 <= q < rb.len() && rb[q] == ln;
                        assert(b[q + 1] == ln);
                    }
                } else {
                    if ra.contains(ln) {
                        let q = choose|q: int| 0 <= q < ra.len() && ra[q] == ln;
                        assert(a[q + 1] == ln);
                    }
                    if rb.contains(ln) {
                        let q = choose|q: int| 0 <= q < rb.len() && rb[q] == ln;
                        assert(b[q + 1] == ln);
                    }
                }
            }
        }
        assert forall|ln: u32| (a.contains(ln) || b.contains(ln)) implies #[trigger] out.contains(
            ln,
        ) by {
            if a.contains(ln) {
                let q = choose|q: int| 0 <= q < a.len() && a[q] == ln;
                if q == 0 && (a[0] < b[0] || a[0] == b[0]) {
                    assert(out[0] == ln);
                } else if a[0] < b[0] {
                    assert(ra[q - 1] == ln);
                    assert(rest.contains(ln));
                    let w = choose|w: int| 0 <= w < rest.len() && rest[w] == ln;
                    assert(out[w + 1] == ln);
                } else if b[0] < a[0] {
                    assert(rest.contains(ln));
                    let w = choose|w: int| 0 <= w < rest.len() && rest[w] == ln;
                    assert(out[w + 1] == ln);
                } else {
                    assert(q > 0);
                    assert(ra[q - 1] == ln);
                    assert(rest.contains(ln));
                    let w = choose|w: int| 0 <= w < rest.len() && rest[w] == ln;
                    assert(out[w + 1] == ln);
                }
            } else {
                let q = choose|q: int| 0 <= q < b.len() && b[q] == ln;
                if q == 0 && (b[0] < a[0] || a[0] == b[0]) {
                    assert(out[0] == ln);
                } else if b[0] < a[0] {
                    assert(rb[q - 1] == ln);
                    assert(rest.contains(ln));
                    let w = choose|w: int| 0 <= w < rest.len() && rest[w] == ln;
                    assert(out[w + 1] == ln);
                } else if a[0] < b[0] {
                    assert(rest.contains(ln));
                    let w = choose|w: int| 0 <= w < rest.len() && rest[w] == ln;
                    assert(out[w + 1] == ln);
                } else {
                    assert(q > 0);
                    assert(rb[q - 1] == ln);
                    assert(rest.contains(ln));
                    let w = choose|w: int| 0 <= w < rest.len() && rest[w] == ln;
                    assert(out[w + 1] == ln);
                }
            }
        }
        assert forall|i: int, j: int| 0 <= i < j < out.len() implies out[i] < out[j] by {
            if i == 0 {
                assert(out[j] == rest[j - 1]);
                assert(rest.contains(rest[j - 1]));
            } else {
                assert(out[i] == rest[i - 1]);
                assert(out[j] == rest[j - 1]);
            }
        }
    }
}

/// Two strictly sorted lists with the same members are the same list.
pub proof fn lemma_sorted_unique_ext(s1: Seq<u32>, s2: Seq<u32>)
    requires
        sorted_strict(s1),
        sorted_strict(s2),
        forall|ln: u32| #[trigger] s1.contains(ln) <==> s2.contains(ln),
    ensures
        s1 == s2,
    decreases s1.len(),
{
    if s1.len() == 0 {
        if s2.len() > 0 {
            assert(s2.contains(s2[0]));
            assert(s1.contains(s2[0]));
        }
        assert(s1 =~= s2);
    } else if s2.len() == 0 {
        assert(s1.contains(s1[0]));
        assert(s2.contains(s1[0]));
    } else {
        // The heads are each list's least member, so they agree.
        assert(s1.contains(s1[0]));
        assert(s2.contains(s1[0]));
        assert(s2.contains(s2[0]));
        assert(s1.contains(s2[0]));
        let i1 = choose|i: int| 0 <= i < s2.len() && s2[i] == s1[0];
        let i2 = choose|i: int| 0 <= i < s1.len() && s1[i] == s2[0];
        assert(s2[0] <= s2[i1]);
        assert(s1[0] <= s1[i2]);
        assert(s1[0] == s2[0]);
        let r1 = s1.drop_first();
        let r2 = s2.drop_first();
        assert(forall|k: int| 0 <= k < r1.len() ==> #[trigger] r1[k] == s1[k + 1]);
        assert(forall|k: int| 0 <= k < r2.len() ==> #[trigger] r2[k] == s2[k + 1]);
        assert forall|ln: u32| #[trigger] r1.contains(ln) <==> r2.contains(ln) by {
            if r1.contains(ln) {
                let q = choose|q: int| 0 <= q < r1.len() && r1[q] == ln;
                assert(s1[q + 1] == ln);
                assert(s1.contains(ln));
                assert(s2.contains(ln));
                let w = choose|w: int| 0 <= w < s2.len() && s2[w] == ln;
                assert(s2[0] < ln);
                assert(w > 0);
                assert(r2[w - 1] == ln);
            }
            if r2.contains(ln) {
                let q = choose|q: int| 0 <= q < r2.len() && r2[q] == ln;
                assert(s2[q + 1] == ln);
                assert(s2.contains(ln));
                assert(s1.contains(ln));
                let w = choose|w: int| 0 <= w < s1.len() && s1[w] == ln;
                assert(s1[0] < ln);
                assert(w > 0);
                assert(r1[w - 1] == ln);
            }
        }
        lemma_sorted_unique_ext(r1, r2);
        assert forall|k: int| 0 <= k < s1.len() implies s1[k] == s2[k] by {
            if k > 0 {
                assert(r1[k - 1] == s1[k]);
                assert(r2[k - 1] == s2[k]);
                assert(r1[k - 1] == r2[k - 1]);
            }
        }
        assert(s1 =~= s2);
    }
}

/// Merges two strictly sorted line lists into their strictly sorted union.
pub fn merge_sorted(a: &Vec<u32>, b: &Vec<u32>) -> (r: Vec<u32>)
    requires
        sorted_strict(a@),
        sorted_strict(b@),
    ensures
        sorted_strict(r@),
        forall|ln: u32| #[trigger] r@.contains(ln) <==> (a@.contains(ln) || b@.contains(ln)),
        r@ == spec_merge_lines(a@, b@),
{
    let mut r: Vec<u32> = Vec::new();
    let mut i: usize = 0;
    let mut j: usize = 0;
    while i < a.len() || j < b.len()
        invariant
            sorted_strict(a@),
            sorted_strict(b@),
            0 <= i <= a@.len(),
            0 <= j <= b@.len(),
            sorted_strict(r@),
            forall|ln: u32|
                #[trigger] r@.contains(ln) <==> (a@.take(i as int).contains(ln) || b@.take(
                    j as int,
                ).contains(ln)),
            forall|k: int| 0 <= k < r@.len() ==> (i < a@.len() ==> r@[k] < a@[i as int]),
            forall|k: int| 0 <= k < r@.len() ==> (j < b@.len() ==> r@[k] < b@[j as int]),
        decreases a@.len() - i + b@.len() - j,
    {
        let ghost r_old = r@;
        let ghost i_old = i as int;
        let ghost j_old = j as int;
        let next: u32 = if i < a.len() && j < b.len() {
            let x = a[i];
            let y = b[j];
            if x < y {
                i += 1;
                x
            } else if y < x {
                j += 1;
                y
            } else {
                i += 1;
                j += 1;
                x
            }
        } else if i < a.len() {
            let x = a[i];
            i += 1;
            x
        } else {
            let y = b[j];
            j += 1;
            y
        };
        r.push(next);
        proof {
            assert(forall|k: int|
                0 <= k < i_old ==> a@.take(i as int).contains(#[trigger] a@.take(i_old)[k]));
            assert(forall|k: int|
                0 <= k < j_old ==> b@.take(j as int).contains(#[trigger] b@.take(j_old)[k]));
            assert(i as int > i_old ==> a@.take(i as int)[i_old] == a@[i_old]);
            assert(j as int > j_old ==> b@.take(j as int)[j_old] == b@[j_old]);
            assert forall|ln: u32| #[trigger] r@.contains(ln) implies (a@.take(i as int).contains(
                ln,
            ) || b@.take(j as int).contains(ln)) by {
                if ln == next {
                } else {
                    assert(r_old.contains(ln));
                }
            }
            assert forall|ln: u32|
                (a@.take(i as int).contains(ln) || b@.take(j as int).contains(
                    ln,
                )) implies #[trigger] r@.contains(ln) by {
                if a@.take(i as int).contains(ln) {
                    let k = choose|k: int| 0 <= k < i && a@.take(i as int)[k] == ln;
                    if k < i_old {
                        assert(a@.take(i_old)[k] == ln);
                        assert(a@.take(i_old).contains(ln));
                        assert(r_old.contains(ln));
                        let k2 = choose|k2: int| 0 <= k2 < r_old.len() && r_old[k2] == ln;
                        assert(r@[k2] == ln);
                    } else {
                        assert(ln == next);
                        assert(r@[r@.len() - 1] == next);
                    }
                } else {
                    let k = choose|k: int| 0 <= k < j && b@.take(j as int)[k] == ln;
                    if k < j_old {
                        assert(b@.take(j_old)[k] == ln);
                        assert(b@.take(j_old).contains(ln));
                        assert(r_old.contains(ln));
                        let k2 = choose|k2: int| 0 <= k2 < r_old.len() && r_old[k2] == ln;
                        assert(r@[k2] == ln);
                    } else {
                        assert(ln == next);
                        assert(r@[r@.len() - 1] == next);
                    }
                }
            }
        }
    }
    proof {
        assert(a@.take(a@.len() as int) =~= a@);
        assert(b@.take(b@.len() as int) =~= b@);
        lemma_merge_lines(a@, b@);
        lemma_sorted_unique_ext(r@, spec_merge_lines(a@, b@));
    }
    r
}

/// A single annotation for a review-platform check run.
#[derive(Debug, Clone)]
pub struct Annotation {
    /// Source file path relative to the repository root.
    pub path: String,
    /// Start line of the annotation range.
    pub start_line: u32,
    /// End line of the annotation range.
    pub end_line: u32,
    /// Annotation message.
    pub message: String,
}

/// Mathematical image of an `Annotation`.
pub struct AnnotationView {
    pub path: Seq<char>,
    pub start_line: u32,
    pub end_line: u32,
    pub message: Seq<char>,
}

impl View for Annotation {
    type V = AnnotationView;

    open spec fn view(&self) -> AnnotationView {
        AnnotationView {
            path: self.path@,
            start_line: self.start_line,
            end_line: self.end_line,
            message: self.message@,
        }
    }
}

impl DeepView for Annotation {
    type V = AnnotationView;

    open spec fn deep_view(&self) -> AnnotationView {
        self.view()
    }
}

} // verus!
