//! Parser for JaCoCo XML coverage reports: `<package name>` elements with
//! `<sourcefile name>` children whose `<line nr mi ci mb cb/>` rows carry
//! the data. A line is emitted iff it has instructions (`ci + mi > 0`),
//! with `ci` as its hit count; `cb + mb` branch arms are emitted per
//! line, the first `cb` hit, under a running per-line index. `<method>`
//! elements inside `<class sourcefilename>` become function rows — hit
//! when their `METHOD` counter covered anything — buffered per package
//! and source file name and attached to the matching `<sourcefile>`.
//!
//! The result's shape is verified (per file, line rows stay ordered by
//! line number); the exact row values are checked by tests rather than
//! proof.

use vstd::prelude::*;
use vstd::string::{StringExecFns, StringSliceAdditionalSpecFns};
use crate::error::CovrsError;
use crate::model::{
    BranchCoverage, CoverageData, FileCoverage, FunctionCoverage, LineCoverage,
};
use crate::text::{parse_u32, parse_u64, str_eq, bytes_eq};
use crate::xml::{
    XmlEvent, spec_xml_events, spec_xml_error_pos, read_xml_events, get_attr,
};
use crate::diff::clone_string;
use crate::parsers::clover::spec_insert_line_stable;

verus! {

/// Line rows ordered by line number.
pub open spec fn lines_sorted(rows: Seq<LineCoverage>) -> bool {
    forall|i: int, j: int|
        0 <= i < j < rows.len() ==> (#[trigger] rows[i]).line_number <= (
        #[trigger] rows[j]).line_number
}

/// Stable insertion keeps line rows ordered.
pub proof fn lemma_insert_stable_sorted(rows: Seq<LineCoverage>, lc: LineCoverage)
    requires
        lines_sorted(rows),
    ensures
        lines_sorted(spec_insert_line_stable(rows, lc)),
    decreases rows.len(),
{
    let out = spec_insert_line_stable(rows, lc);
    if lc.line_number == 0 {
        assert(out == rows);
    } else if rows.len() == 0 {
    } else if lc.line_number < rows[0].line_number {
        assert(out =~= seq![lc] + rows);
        assert forall|i: int, j: int|
            0 <= i < j < out.len() implies (#[trigger] out[i]).line_number <= (
        #[trigger] out[j]).line_number by {
            if i > 0 {
                assert(out[i] == rows[i - 1]);
                assert(out[j] == rows[j - 1]);
            } else {
                assert(out[j] == rows[j - 1]);
                assert(rows[0].line_number <= rows[j - 1].line_number);
            }
        }
    } else {
        let rest = rows.drop_first();
        assert(forall|k: int| 0 <= k < rest.len() ==> #[trigger] rest[k] == rows[k + 1]);
        lemma_insert_stable_sorted(rest, lc);
        let out2 = spec_insert_line_stable(rest, lc);
        assert(out =~= seq![rows[0]] + out2);
        assert forall|i: int, j: int|
            0 <= i < j < out.len() implies (#[trigger] out[i]).line_number <= (
        #[trigger] out[j]).line_number by {
            if i > 0 {
                assert(out[i] == out2[i - 1]);
                assert(out[j] == out2[j - 1]);
            } else {
                assert(out[j] == out2[j - 1]);
                lemma_insert_stable_member(rest, lc, j - 1);
                assert(rows[0].line_number <= out2[j - 1].line_number);
            }
        }
    }
}

/// Every row of a stable insertion is the new row or one of the old ones.
proof fn lemma_insert_stable_member(rows: Seq<LineCoverage>, lc: LineCoverage, k: int)
    requires
        0 <= k < spec_insert_line_stable(rows, lc).len(),
    ensures
        spec_insert_line_stable(rows, lc)[k] == lc || rows.contains(
            spec_insert_line_stable(rows, lc)[k],
        ),
    decreases rows.len(),
{
    let out = spec_insert_line_stable(rows, lc);
    if lc.line_number == 0 {
        assert(out == rows);
        assert(rows.contains(out[k]));
    } else if rows.len() == 0 {
    } else if lc.line_number < rows[0].line_number {
        if k > 0 {
            assert(out[k] == rows[k - 1]);
        }
    } else {
        let rest = rows.drop_first();
        assert(forall|q: int| 0 <= q < rest.len() ==> #[trigger] rest[q] == rows[q + 1]);
        if k == 0 {
            assert(out[0] == rows[0]);
        } else {
            assert(out[k] == spec_insert_line_stable(rest, lc)[k - 1]);
            lemma_insert_stable_member(rest, lc, k - 1);
            if spec_insert_line_stable(rest, lc)[k - 1] != lc {
                let q = choose|q: int|
                    0 <= q < rest.len() && rest[q] == spec_insert_line_stable(rest, lc)[k - 1];
                assert(rows[q + 1] == spec_insert_line_stable(rest, lc)[k - 1]);
            }
        }
    }
}

/// Whether every emitted file's line rows are ordered by line number.
pub open spec fn files_sorted(files: Seq<crate::model::FileCoverageView>) -> bool {
    forall|k: int| 0 <= k < files.len() ==> lines_sorted((#[trigger] files[k]).lines)
}

/// A line row inserted in order.
fn insert_line_stable_exec(rows: &mut Vec<LineCoverage>, lc: LineCoverage)
    ensures
        final(rows)@ == spec_insert_line_stable(old(rows)@, lc),
{
    if lc.line_number == 0 {
        return ;
    }
    let ghost orig = rows@;
    let n = rows.len();
    let mut j: usize = 0;
    while j < n
        invariant
            lc.line_number >= 1,
            n == rows@.len(),
            rows@ == orig,
            orig == old(rows)@,
            0 <= j <= n,
            forall|k: int| 0 <= k < j ==> (#[trigger] orig[k]).line_number <= lc.line_number,
        decreases n - j,
    {
        if rows[j].line_number > lc.line_number {
            rows.insert(j, lc);
            proof {
                crate::parsers::clover::lemma_insert_line_stable_at(orig, lc, j as int);
                assert(rows@ =~= orig.subrange(0, j as int) + seq![lc] + orig.subrange(
                    j as int,
                    orig.len() as int,
                ));
            }
            return ;
        }
        j += 1;
    }
    rows.push(lc);
    proof {
        crate::parsers::clover::lemma_insert_line_stable_at(orig, lc, n as int);
        assert(orig.subrange(0, n as int) =~= orig);
        assert(orig.subrange(n as int, n as int) =~= Seq::<LineCoverage>::empty());
        assert(orig + seq![lc] + Seq::<LineCoverage>::empty() =~= orig.push(lc));
    }
}



/// One opening tag applied to the parser state.
#[verifier::rlimit(100)]
fn jacoco_open(
    cur: &mut Option<FileCoverage>,
    branch_counts: &mut Vec<(u32, u32)>,
    current_package: &mut Option<String>,
    current_class_source: &mut Option<String>,
    class_methods: &mut Vec<((String, String), Vec<FunctionCoverage>)>,
    in_method: &mut bool,
    method_name: &mut Option<String>,
    method_line: &mut Option<u32>,
    method_hit: &mut bool,
    name: &Vec<u8>,
    attrs: &Vec<(Vec<u8>, String)>,
    self_closing: bool,
    Ghost(files_v): Ghost<Seq<crate::model::FileCoverageView>>,
)
    requires
        (*old(cur)) matches Some(f) ==> lines_sorted(f@.lines),
    ensures
        (*final(cur)) matches Some(f) ==> lines_sorted(f@.lines),
        (JacocoState {
            files: files_v,
            cur: crate::parsers::lcov::view_cur(final(cur)),
            branch_counts: final(branch_counts)@,
            package: crate::diff::view_current(final(current_package)),
            class_source: crate::diff::view_current(final(current_class_source)),
            class_methods: view_cm(final(class_methods)),
            in_method: *final(in_method),
            method_name: crate::diff::view_current(final(method_name)),
            method_line: *final(method_line),
            method_hit: *final(method_hit),
        }) == spec_jacoco_step(
            JacocoState {
                files: files_v,
                cur: crate::parsers::lcov::view_cur(old(cur)),
                branch_counts: old(branch_counts)@,
                package: crate::diff::view_current(old(current_package)),
                class_source: crate::diff::view_current(old(current_class_source)),
                class_methods: view_cm(old(class_methods)),
                in_method: *old(in_method),
                method_name: crate::diff::view_current(old(method_name)),
                method_line: *old(method_line),
                method_hit: *old(method_hit),
            },
            crate::xml::XmlEventView::Open {
                name: name@,
                attrs: crate::xml::view_attrs(attrs),
                self_closing,
            },
        ),
{
    let ghost st = JacocoState {
        files: files_v,
        cur: crate::parsers::lcov::view_cur(cur),
        branch_counts: branch_counts@,
        package: crate::diff::view_current(current_package),
        class_source: crate::diff::view_current(current_class_source),
        class_methods: view_cm(class_methods),
        in_method: *in_method,
        method_name: crate::diff::view_current(method_name),
        method_line: *method_line,
        method_hit: *method_hit,
    };

            let package_tag: Vec<u8> = vec![112, 97, 99, 107, 97, 103, 101];
            let class_tag: Vec<u8> = vec![99, 108, 97, 115, 115];
            let method_tag: Vec<u8> = vec![109, 101, 116, 104, 111, 100];
            let counter_tag: Vec<u8> = vec![99, 111, 117, 110, 116, 101, 114];
            let sourcefile_tag: Vec<u8> = vec![115, 111, 117, 114, 99, 101, 102, 105, 108, 101];
            let line_tag: Vec<u8> = vec![108, 105, 110, 101];
            proof {
                assert(package_tag@ =~= seq![112u8, 97u8, 99u8, 107u8, 97u8, 103u8, 101u8]);
                assert(class_tag@ =~= seq![99u8, 108u8, 97u8, 115u8, 115u8]);
                assert(method_tag@ =~= seq![109u8, 101u8, 116u8, 104u8, 111u8, 100u8]);
                assert(counter_tag@ =~= seq![99u8, 111u8, 117u8, 110u8, 116u8, 101u8, 114u8]);
                assert(sourcefile_tag@ =~= spec_sourcefile_tag());
                assert(line_tag@ =~= seq![108u8, 105u8, 110u8, 101u8]);
            }
            if bytes_eq(name.as_slice(), package_tag.as_slice()) {
                let name_key: Vec<u8> = vec![110, 97, 109, 101];
                proof {
                    assert(name_key@ =~= seq![110u8, 97u8, 109u8, 101u8]);
                }
                *current_package = match get_attr(attrs, name_key.as_slice()) {
                    Some(v) => Some(clone_string(v)),
                    None => None,
                };
            } else if bytes_eq(name.as_slice(), class_tag.as_slice()) {
                if !self_closing {
                    let src_key: Vec<u8> = vec![
                        115, 111, 117, 114, 99, 101, 102, 105, 108, 101, 110, 97, 109, 101,
                    ];
                    proof {
                        assert(src_key@ =~= spec_srcname_key());
                    }
                    *current_class_source = match get_attr(attrs, src_key.as_slice()) {
                        Some(v) => Some(clone_string(v)),
                        None => None,
                    };
                }
            } else if bytes_eq(name.as_slice(), method_tag.as_slice()) {
                *in_method = true;
                let name_key: Vec<u8> = vec![110, 97, 109, 101];
                let line_key: Vec<u8> = vec![108, 105, 110, 101];
                proof {
                    assert(name_key@ =~= seq![110u8, 97u8, 109u8, 101u8]);
                    assert(line_key@ =~= seq![108u8, 105u8, 110u8, 101u8]);
                }
                *method_name = match get_attr(attrs, name_key.as_slice()) {
                    Some(v) => Some(clone_string(v)),
                    None => None,
                };
                *method_line = crate::parsers::clover::attr_u32(attrs, line_key.as_slice());
                *method_hit = false;
            } else if bytes_eq(name.as_slice(), counter_tag.as_slice()) {
                if *in_method {
                    let type_key: Vec<u8> = vec![116, 121, 112, 101];
                    let covered_key: Vec<u8> = vec![99, 111, 118, 101, 114, 101, 100];
                    proof {
                        assert(type_key@ =~= seq![116u8, 121u8, 112u8, 101u8]);
                        assert(covered_key@ =~= seq![
                            99u8,
                            111u8,
                            118u8,
                            101u8,
                            114u8,
                            101u8,
                            100u8,
                        ]);
                    }
                    let is_method_counter: bool = match get_attr(attrs, type_key.as_slice()) {
                        Some(v) => str_eq(v.as_str(), "METHOD"),
                        None => false,
                    };
                    proof {
                        assert(is_method_counter == (crate::xml::spec_attr(
                            crate::xml::view_attrs(attrs),
                            seq![116u8, 121u8, 112u8, 101u8],
                        ) == Some(("METHOD")@)));
                    }
                    if is_method_counter {
                        let covered = crate::parsers::clover::attr_u64_or_zero(
                            attrs,
                            covered_key.as_slice(),
                        );
                        if covered > 0 {
                            *method_hit = true;
                        }
                    }
                }
            } else if bytes_eq(name.as_slice(), sourcefile_tag.as_slice()) {
                let name_key: Vec<u8> = vec![110, 97, 109, 101];
                proof {
                    assert(name_key@ =~= seq![110u8, 97u8, 109u8, 101u8]);
                }
                match get_attr(attrs, name_key.as_slice()) {
                    None => {},
                    Some(sf_name) => {
                        let path: String = match &*current_package {
                            Some(pkg) => {
                                let mut p = clone_string(pkg);
                                p.append("/");
                                assert(("/")@ =~= seq!['/']) by {
                                    reveal_strlit("/");
                                }
                                p.append(sf_name.as_str());
                                p
                            },
                            None => clone_string(sf_name),
                        };
                        let mut f = FileCoverage::new(path);
                        // Attach the methods buffered for this package
                        // and source file name.
                        match &*current_package {
                            Some(pkg) => {
                                let ghost cm0 = view_cm(&class_methods);
                                let m = class_methods.len();
                                let mut k: usize = 0;
                                let mut found = false;
                                while k < m && !found
                                    invariant
                                        m == class_methods@.len(),
                                        view_cm(&class_methods) == cm0,
                                        cm0.len() == m,
                                        0 <= k <= m,
                                        found ==> k < m && cm0[k as int].0 == (
                                            pkg@,
                                            sf_name@,
                                        ),
                                        forall|q: int|
                                            0 <= q < k ==> (#[trigger] cm0[q]).0 != (
                                                pkg@,
                                                sf_name@,
                                            ),
                                    decreases m - k + (if found {
                                        0int
                                    } else {
                                        1int
                                    }),
                                {
                                    proof {
                                        assert(cm0[k as int] == ((
                                            class_methods@[k as int].0.0@,
                                            class_methods@[k as int].0.1@,
                                        ), class_methods@[k as int].1.deep_view()));
                                    }
                                    if str_eq(
                                        class_methods[k].0.0.as_str(),
                                        pkg.as_str(),
                                    ) && str_eq(
                                        class_methods[k].0.1.as_str(),
                                        sf_name.as_str(),
                                    ) {
                                        found = true;
                                    } else {
                                        k += 1;
                                    }
                                }
                                if found {
                                    let entry = class_methods.remove(k);
                                    let ghost rows = entry.1.deep_view();
                                    f.functions = entry.1;
                                    proof {
                                        lemma_cm_at(cm0, (pkg@, sf_name@), k as int);
                                        assert(view_cm(&class_methods) =~= cm0.subrange(
                                            0,
                                            k as int,
                                        ) + cm0.subrange(k as int + 1, cm0.len() as int)) by {
                                            assert(forall|q: int|
                                                0 <= q < k ==> #[trigger] view_cm(
                                                    &class_methods,
                                                )[q] == cm0[q]);
                                            assert(forall|q: int|
                                                k <= q < view_cm(&class_methods).len()
                                                    ==> #[trigger] view_cm(&class_methods)[q]
                                                    == cm0[q + 1]);
                                        }
                                        assert(f.functions.deep_view() == rows);
                                        assert(f@.lines =~= Seq::<LineCoverage>::empty());
                                        assert(f@.branches =~= Seq::<BranchCoverage>::empty());
                                    }
                                } else {
                                    proof {
                                        lemma_cm_at(cm0, (pkg@, sf_name@), m as int);
                                        assert(f@.lines =~= Seq::<LineCoverage>::empty());
                                        assert(f@.functions =~= Seq::<
                                            crate::model::FunctionCoverageView,
                                        >::empty());
                                    }
                                }
                            },
                            None => {
                                proof {
                                    assert(f@.lines =~= Seq::<LineCoverage>::empty());
                                    assert(f@.functions =~= Seq::<
                                        crate::model::FunctionCoverageView,
                                    >::empty());
                                }
                            },
                        }
                        *cur = Some(f);
                        *branch_counts = Vec::new();
                    },
                }
            } else if bytes_eq(name.as_slice(), line_tag.as_slice()) {
                if cur.is_some() {
                    let nr_key: Vec<u8> = vec![110, 114];
                    let ci_key: Vec<u8> = vec![99, 105];
                    let mi_key: Vec<u8> = vec![109, 105];
                    let cb_key: Vec<u8> = vec![99, 98];
                    let mb_key: Vec<u8> = vec![109, 98];
                    proof {
                        assert(nr_key@ =~= seq![110u8, 114u8]);
                        assert(ci_key@ =~= seq![99u8, 105u8]);
                        assert(mi_key@ =~= seq![109u8, 105u8]);
                        assert(cb_key@ =~= seq![99u8, 98u8]);
                        assert(mb_key@ =~= seq![109u8, 98u8]);
                    }
                    match crate::parsers::clover::attr_u32(attrs, nr_key.as_slice()) {
                        None => {},
                        Some(ln) => {
                            let ci = crate::parsers::clover::attr_u64_or_zero(
                                attrs,
                                ci_key.as_slice(),
                            );
                            let mi = crate::parsers::clover::attr_u64_or_zero(
                                attrs,
                                mi_key.as_slice(),
                            );
                            let cb = attr_u32_or_zero(attrs, cb_key.as_slice());
                            let mb = attr_u32_or_zero(attrs, mb_key.as_slice());
                            let mut f_opt: Option<FileCoverage> = None;
                            core::mem::swap(cur, &mut f_opt);
                            let mut f = match f_opt {
                                Some(f) => f,
                                None => unreached(),
                            };
                            let ghost f0 = f@;
                            if ci > 0 || mi > 0 {
                                proof {
                                    lemma_insert_stable_sorted(
                                        f@.lines,
                                        LineCoverage { line_number: ln, hit_count: ci },
                                    );
                                }
                                insert_line_stable_exec(
                                    &mut f.lines,
                                    LineCoverage { line_number: ln, hit_count: ci },
                                );
                            }
                            let ghost f1 = if ci > 0 || mi > 0 {
                                crate::model::FileCoverageView {
                                    lines: spec_insert_line_stable(
                                        f0.lines,
                                        LineCoverage { line_number: ln, hit_count: ci },
                                    ),
                                    ..f0
                                }
                            } else {
                                f0
                            };
                            proof {
                                assert(f@ == f1);
                            }
                            let total: u64 = cb as u64 + mb as u64;
                            if total > 0 && ln >= 1 {
                                let idx0 = match crate::parsers::lcov::assoc_u32_lookup(
                                    &branch_counts,
                                    ln,
                                ) {
                                    Some(v) => v,
                                    None => 0,
                                };
                                let mut idx = idx0;
                                let mut bi: u64 = 0;
                                let ghost base = f.branches@;
                                while bi < total
                                    invariant
                                        0 <= bi <= total,
                                        f.path@ == f1.path,
                                        f.lines@ == f1.lines,
                                        f.functions.deep_view() == f1.functions,
                                        spec_jac_arms(base, ln, cb, total, idx0, 0)
                                            == spec_jac_arms(
                                            f.branches@,
                                            ln,
                                            cb,
                                            total,
                                            idx,
                                            bi as int,
                                        ),
                                    decreases total - bi,
                                {
                                    f.branches.push(
                                        BranchCoverage {
                                            line_number: ln,
                                            branch_index: idx,
                                            hit_count: if bi < cb as u64 {
                                                1
                                            } else {
                                                0
                                            },
                                        },
                                    );
                                    idx = if idx == u32::MAX {
                                        idx
                                    } else {
                                        idx + 1
                                    };
                                    bi += 1;
                                }
                                proof {
                                    assert(spec_jac_arms(base, ln, cb, total, idx0, 0) == (
                                    f.branches@,
                                    idx,
                                    ));
                                    assert(base == f1.branches);
                                }
                                crate::parsers::lcov::assoc_u32_set_pub(
                                    branch_counts,
                                    ln,
                                    idx,
                                );
                            }
                            *cur = Some(f);
                        },
                    }
                }
            }
    proof {
        let st2 = JacocoState {
            files: files_v,
            cur: crate::parsers::lcov::view_cur(cur),
            branch_counts: branch_counts@,
            package: crate::diff::view_current(current_package),
            class_source: crate::diff::view_current(current_class_source),
            class_methods: view_cm(class_methods),
            in_method: *in_method,
            method_name: crate::diff::view_current(method_name),
            method_line: *method_line,
            method_hit: *method_hit,
        };
        let sp = spec_jacoco_step(
            st,
            crate::xml::XmlEventView::Open {
                name: name@,
                attrs: crate::xml::view_attrs(attrs),
                self_closing,
            },
        );
        assert(st2.class_methods == sp.class_methods);
        assert(st2.branch_counts == sp.branch_counts);
        assert(st2.cur == sp.cur);
        assert(st2 == sp);
    }
}

/// One closing tag applied to the parser state.
#[verifier::rlimit(100)]
fn jacoco_close(
    files: &mut Vec<FileCoverage>,
    cur: &mut Option<FileCoverage>,
    current_package: &mut Option<String>,
    current_class_source: &mut Option<String>,
    class_methods: &mut Vec<((String, String), Vec<FunctionCoverage>)>,
    in_method: &mut bool,
    method_name: &mut Option<String>,
    method_line: &mut Option<u32>,
    method_hit: bool,
    name: &Vec<u8>,
    Ghost(bc_v): Ghost<Seq<(u32, u32)>>,
)
    requires
        files_sorted(old(files).deep_view()),
        (*old(cur)) matches Some(f) ==> lines_sorted(f@.lines),
    ensures
        files_sorted(final(files).deep_view()),
        (*final(cur)) matches Some(f) ==> lines_sorted(f@.lines),
        (JacocoState {
            files: final(files).deep_view(),
            cur: crate::parsers::lcov::view_cur(final(cur)),
            branch_counts: bc_v,
            package: crate::diff::view_current(final(current_package)),
            class_source: crate::diff::view_current(final(current_class_source)),
            class_methods: view_cm(final(class_methods)),
            in_method: *final(in_method),
            method_name: crate::diff::view_current(final(method_name)),
            method_line: *final(method_line),
            method_hit,
        }) == spec_jacoco_step(
            JacocoState {
                files: old(files).deep_view(),
                cur: crate::parsers::lcov::view_cur(old(cur)),
                branch_counts: bc_v,
                package: crate::diff::view_current(old(current_package)),
                class_source: crate::diff::view_current(old(current_class_source)),
                class_methods: view_cm(old(class_methods)),
                in_method: *old(in_method),
                method_name: crate::diff::view_current(old(method_name)),
                method_line: *old(method_line),
                method_hit,
            },
            crate::xml::XmlEventView::Close { name: name@ },
        ),
{
    let ghost st = JacocoState {
        files: files.deep_view(),
        cur: crate::parsers::lcov::view_cur(cur),
        branch_counts: bc_v,
        package: crate::diff::view_current(current_package),
        class_source: crate::diff::view_current(current_class_source),
        class_methods: view_cm(class_methods),
        in_method: *in_method,
        method_name: crate::diff::view_current(method_name),
        method_line: *method_line,
        method_hit,
    };

            let package_tag: Vec<u8> = vec![112, 97, 99, 107, 97, 103, 101];
            let class_tag: Vec<u8> = vec![99, 108, 97, 115, 115];
            let method_tag: Vec<u8> = vec![109, 101, 116, 104, 111, 100];
            let sourcefile_tag: Vec<u8> = vec![115, 111, 117, 114, 99, 101, 102, 105, 108, 101];
            proof {
                assert(package_tag@ =~= seq![112u8, 97u8, 99u8, 107u8, 97u8, 103u8, 101u8]);
                assert(class_tag@ =~= seq![99u8, 108u8, 97u8, 115u8, 115u8]);
                assert(method_tag@ =~= seq![109u8, 101u8, 116u8, 104u8, 111u8, 100u8]);
                assert(sourcefile_tag@ =~= spec_sourcefile_tag());
            }
            if bytes_eq(name.as_slice(), package_tag.as_slice()) {
                *current_package = None;
            } else if bytes_eq(name.as_slice(), class_tag.as_slice()) {
                *current_class_source = None;
            } else if bytes_eq(name.as_slice(), method_tag.as_slice()) {
                if *in_method {
                    let mut taken: Option<String> = None;
                    core::mem::swap(method_name, &mut taken);
                    match (&*current_package, &*current_class_source, taken) {
                        (Some(pkg), Some(src), Some(mname)) => {
                            let row = FunctionCoverage {
                                name: mname,
                                start_line: *method_line,
                                end_line: None,
                                hit_count: if method_hit {
                                    1
                                } else {
                                    0
                                },
                            };
                            let ghost rowv = row@;
                            let ghost cm0 = view_cm(&class_methods);
                            let m = class_methods.len();
                            let mut k: usize = 0;
                            let mut found = false;
                            while k < m && !found
                                invariant
                                    m == class_methods@.len(),
                                    view_cm(&class_methods) == cm0,
                                    cm0.len() == m,
                                    0 <= k <= m,
                                    found ==> k < m && cm0[k as int].0 == (pkg@, src@),
                                    forall|q: int|
                                        0 <= q < k ==> (#[trigger] cm0[q]).0 != (pkg@, src@),
                                decreases m - k + (if found {
                                    0int
                                } else {
                                    1int
                                }),
                            {
                                proof {
                                    assert(cm0[k as int] == ((
                                        class_methods@[k as int].0.0@,
                                        class_methods@[k as int].0.1@,
                                    ), class_methods@[k as int].1.deep_view()));
                                }
                                if str_eq(class_methods[k].0.0.as_str(), pkg.as_str())
                                    && str_eq(class_methods[k].0.1.as_str(), src.as_str()) {
                                    found = true;
                                } else {
                                    k += 1;
                                }
                            }
                            if found {
                                let mut entry = class_methods.remove(k);
                                let ghost rows0 = entry.1.deep_view();
                                entry.1.push(row);
                                proof {
                                    assert(entry.1.deep_view() =~= rows0.push(rowv)) by {
                                        assert(forall|q: int|
                                            0 <= q < rows0.len()
                                                ==> #[trigger] entry.1.deep_view()[q]
                                                == rows0[q]);
                                        assert(entry.1.deep_view()[rows0.len() as int]
                                            == entry.1@[rows0.len() as int]@);
                                    }
                                }
                                class_methods.insert(k, entry);
                                proof {
                                    lemma_cm_add_at(cm0, (pkg@, src@), rowv, k as int);
                                    assert(view_cm(&class_methods) =~= cm0.update(
                                        k as int,
                                        (cm0[k as int].0, cm0[k as int].1.push(rowv)),
                                    ));
                                }
                            } else {
                                let mut rows: Vec<FunctionCoverage> = Vec::new();
                                rows.push(row);
                                proof {
                                    assert(rows.deep_view() =~= seq![rowv]) by {
                                        assert(rows.deep_view()[0] == rows@[0]@);
                                    }
                                }
                                class_methods.push(((clone_string(pkg), clone_string(src)), rows));
                                proof {
                                    lemma_cm_add_at(cm0, (pkg@, src@), rowv, m as int);
                                    assert(view_cm(&class_methods) =~= cm0.push(
                                        ((pkg@, src@), seq![rowv]),
                                    ));
                                }
                            }
                        },
                        _ => {},
                    }
                    *in_method = false;
                    *method_line = None;
                }
            } else if bytes_eq(name.as_slice(), sourcefile_tag.as_slice()) {
                let mut done: Option<FileCoverage> = None;
                core::mem::swap(cur, &mut done);
                match done {
                    Some(f) => {
                        let ghost fsv = files.deep_view();
                        let ghost fv = f@;
                        files.push(f);
                        proof {
                            assert(files.deep_view() =~= fsv.push(fv)) by {
                                assert(forall|k: int|
                                    0 <= k < fsv.len() ==> #[trigger] files.deep_view()[k]
                                        == fsv[k]);
                                assert(files.deep_view()[fsv.len() as int] == fv);
                            }
                            assert forall|k: int|
                                0 <= k < files.deep_view().len() implies lines_sorted(
                                (#[trigger] files.deep_view()[k]).lines,
                            ) by {
                                if k < fsv.len() {
                                    assert(files.deep_view()[k] == fsv[k]);
                                } else {
                                    assert(files.deep_view()[k] == fv);
                                }
                            }
                        }
                    },
                    None => {},
                }
            }
    proof {
        let st2 = JacocoState {
            files: files.deep_view(),
            cur: crate::parsers::lcov::view_cur(cur),
            branch_counts: bc_v,
            package: crate::diff::view_current(current_package),
            class_source: crate::diff::view_current(current_class_source),
            class_methods: view_cm(class_methods),
            in_method: *in_method,
            method_name: crate::diff::view_current(method_name),
            method_line: *method_line,
            method_hit,
        };
        let sp = spec_jacoco_step(st, crate::xml::XmlEventView::Close { name: name@ });
        assert(st2.files == sp.files);
        assert(st2.class_methods == sp.class_methods);
        assert(st2.cur == sp.cur);
        assert(st2 == sp);
    }
}

/// A `u32` attribute parsed, zero when absent or unreadable.
pub open spec fn spec_attr_u32_or_zero(attrs: Seq<(Seq<u8>, Seq<char>)>, key: Seq<u8>) -> u32 {
    match crate::parsers::clover::spec_attr_u32(attrs, key) {
        Some(v) => v,
        None => 0u32,
    }
}

/// The parser state after some prefix of the document's events.
pub struct JacocoState {
    pub files: Seq<crate::model::FileCoverageView>,
    pub cur: Option<crate::model::FileCoverageView>,
    pub branch_counts: Seq<(u32, u32)>,
    pub package: Option<Seq<char>>,
    pub class_source: Option<Seq<char>>,
    pub class_methods: Seq<((Seq<char>, Seq<char>), Seq<crate::model::FunctionCoverageView>)>,
    pub in_method: bool,
    pub method_name: Option<Seq<char>>,
    pub method_line: Option<u32>,
    pub method_hit: bool,
}

/// The first method buffer stored under `key`, if any.
pub open spec fn spec_cm_get(
    s: Seq<((Seq<char>, Seq<char>), Seq<crate::model::FunctionCoverageView>)>,
    key: (Seq<char>, Seq<char>),
) -> Option<Seq<crate::model::FunctionCoverageView>>
    decreases s.len(),
{
    if s.len() == 0 {
        None
    } else if s[0].0 == key {
        Some(s[0].1)
    } else {
        spec_cm_get(s.drop_first(), key)
    }
}

/// The buffers with the first entry under `key` removed.
pub open spec fn spec_cm_remove(
    s: Seq<((Seq<char>, Seq<char>), Seq<crate::model::FunctionCoverageView>)>,
    key: (Seq<char>, Seq<char>),
) -> Seq<((Seq<char>, Seq<char>), Seq<crate::model::FunctionCoverageView>)>
    decreases s.len(),
{
    if s.len() == 0 {
        s
    } else if s[0].0 == key {
        s.drop_first()
    } else {
        seq![s[0]] + spec_cm_remove(s.drop_first(), key)
    }
}

/// A method row appended to its key's buffer, or to a new buffer at the
/// end.
pub open spec fn spec_cm_add(
    s: Seq<((Seq<char>, Seq<char>), Seq<crate::model::FunctionCoverageView>)>,
    key: (Seq<char>, Seq<char>),
    row: crate::model::FunctionCoverageView,
) -> Seq<((Seq<char>, Seq<char>), Seq<crate::model::FunctionCoverageView>)>
    decreases s.len(),
{
    if s.len() == 0 {
        seq![(key, seq![row])]
    } else if s[0].0 == key {
        seq![(s[0].0, s[0].1.push(row))] + s.drop_first()
    } else {
        seq![s[0]] + spec_cm_add(s.drop_first(), key, row)
    }
}

/// The branch arms of one line: `total` arms under the running per-line
/// index, the first `cb` hit, the index saturating rather than
/// overflowing.
pub open spec fn spec_jac_arms(
    branches: Seq<BranchCoverage>,
    ln: u32,
    cb: u32,
    total: u64,
    idx: u32,
    i: int,
) -> (Seq<BranchCoverage>, u32)
    decreases total as int - i,
{
    if i < 0 || i >= total as int {
        (branches, idx)
    } else {
        let b1 = branches.push(
            BranchCoverage {
                line_number: ln,
                branch_index: idx,
                hit_count: if i < cb as int {
                    1u64
                } else {
                    0u64
                },
            },
        );
        let idx1 = if idx == u32::MAX {
            idx
        } else {
            (idx + 1) as u32
        };
        spec_jac_arms(b1, ln, cb, total, idx1, i + 1)
    }
}

/// One document event applied to the parser state.
pub open spec fn spec_jacoco_step(st: JacocoState, ev: crate::xml::XmlEventView) -> JacocoState {
    match ev {
        crate::xml::XmlEventView::Open { name, attrs, self_closing } => {
            if name == seq![112u8, 97u8, 99u8, 107u8, 97u8, 103u8, 101u8] {
                JacocoState {
                    package: crate::xml::spec_attr(attrs, seq![110u8, 97u8, 109u8, 101u8]),
                    ..st
                }
            } else if name == seq![99u8, 108u8, 97u8, 115u8, 115u8] {
                if !self_closing {
                    JacocoState {
                        class_source: crate::xml::spec_attr(attrs, spec_srcname_key()),
                        ..st
                    }
                } else {
                    st
                }
            } else if name == seq![109u8, 101u8, 116u8, 104u8, 111u8, 100u8] {
                JacocoState {
                    in_method: true,
                    method_name: crate::xml::spec_attr(attrs, seq![110u8, 97u8, 109u8, 101u8]),
                    method_line: crate::parsers::clover::spec_attr_u32(
                        attrs,
                        seq![108u8, 105u8, 110u8, 101u8],
                    ),
                    method_hit: false,
                    ..st
                }
            } else if name == seq![99u8, 111u8, 117u8, 110u8, 116u8, 101u8, 114u8] {
                if st.in_method && crate::xml::spec_attr(attrs, seq![116u8, 121u8, 112u8, 101u8])
                    == Some(("METHOD")@) && crate::parsers::clover::spec_attr_u64_or_zero(
                    attrs,
                    seq![99u8, 111u8, 118u8, 101u8, 114u8, 101u8, 100u8],
                ) > 0 {
                    JacocoState { method_hit: true, ..st }
                } else {
                    st
                }
            } else if name == spec_sourcefile_tag() {
                match crate::xml::spec_attr(attrs, seq![110u8, 97u8, 109u8, 101u8]) {
                    None => st,
                    Some(sf_name) => {
                        let path = match st.package {
                            Some(pkg) => pkg + seq!['/'] + sf_name,
                            None => sf_name,
                        };
                        let (functions, cm) = match st.package {
                            Some(pkg) => match spec_cm_get(st.class_methods, (pkg, sf_name)) {
                                Some(rows) => (
                                    rows,
                                    spec_cm_remove(st.class_methods, (pkg, sf_name)),
                                ),
                                None => (
                                    Seq::<crate::model::FunctionCoverageView>::empty(),
                                    st.class_methods,
                                ),
                            },
                            None => (
                                Seq::<crate::model::FunctionCoverageView>::empty(),
                                st.class_methods,
                            ),
                        };
                        JacocoState {
                            cur: Some(
                                crate::model::FileCoverageView {
                                    path,
                                    lines: Seq::empty(),
                                    branches: Seq::empty(),
                                    functions,
                                },
                            ),
                            branch_counts: Seq::empty(),
                            class_methods: cm,
                            ..st
                        }
                    },
                }
            } else if name == seq![108u8, 105u8, 110u8, 101u8] {
                match st.cur {
                    None => st,
                    Some(f) => match crate::parsers::clover::spec_attr_u32(
                        attrs,
                        seq![110u8, 114u8],
                    ) {
                        None => st,
                        Some(ln) => {
                            let ci = crate::parsers::clover::spec_attr_u64_or_zero(
                                attrs,
                                seq![99u8, 105u8],
                            );
                            let mi = crate::parsers::clover::spec_attr_u64_or_zero(
                                attrs,
                                seq![109u8, 105u8],
                            );
                            let cb = spec_attr_u32_or_zero(attrs, seq![99u8, 98u8]);
                            let mb = spec_attr_u32_or_zero(attrs, seq![109u8, 98u8]);
                            let f1 = if ci > 0 || mi > 0 {
                                crate::model::FileCoverageView {
                                    lines: spec_insert_line_stable(
                                        f.lines,
                                        LineCoverage { line_number: ln, hit_count: ci },
                                    ),
                                    ..f
                                }
                            } else {
                                f
                            };
                            let total: u64 = (cb as u64 + mb as u64) as u64;
                            if total > 0 && ln >= 1 {
                                let idx0 = match crate::parsers::lcov::assoc_u32(
                                    st.branch_counts,
                                    ln,
                                ) {
                                    Some(v) => v,
                                    None => 0u32,
                                };
                                let arms = spec_jac_arms(f1.branches, ln, cb, total, idx0, 0);
                                JacocoState {
                                    cur: Some(
                                        crate::model::FileCoverageView { branches: arms.0, ..f1 },
                                    ),
                                    branch_counts: crate::parsers::lcov::assoc_u32_set(
                                        st.branch_counts,
                                        ln,
                                        arms.1,
                                    ),
                                    ..st
                                }
                            } else {
                                JacocoState { cur: Some(f1), ..st }
                            }
                        },
                    },
                }
            } else {
                st
            }
        },
        crate::xml::XmlEventView::Close { name } => {
            if name == seq![112u8, 97u8, 99u8, 107u8, 97u8, 103u8, 101u8] {
                JacocoState { package: None, ..st }
            } else if name == seq![99u8, 108u8, 97u8, 115u8, 115u8] {
                JacocoState { class_source: None, ..st }
            } else if name == seq![109u8, 101u8, 116u8, 104u8, 111u8, 100u8] {
                if st.in_method {
                    let cm = match (st.package, st.class_source, st.method_name) {
                        (Some(pkg), Some(src), Some(mname)) => spec_cm_add(
                            st.class_methods,
                            (pkg, src),
                            crate::model::FunctionCoverageView {
                                name: mname,
                                start_line: st.method_line,
                                end_line: None,
                                hit_count: if st.method_hit {
                                    1u64
                                } else {
                                    0u64
                                },
                            },
                        ),
                        _ => st.class_methods,
                    };
                    JacocoState {
                        class_methods: cm,
                        in_method: false,
                        method_name: None,
                        method_line: None,
                        ..st
                    }
                } else {
                    st
                }
            } else if name == spec_sourcefile_tag() {
                match st.cur {
                    Some(f) => JacocoState { files: st.files.push(f), cur: None, ..st },
                    None => st,
                }
            } else {
                st
            }
        },
        crate::xml::XmlEventView::Text { .. } => st,
    }
}

/// The bytes of `sourcefile`.
pub open spec fn spec_sourcefile_tag() -> Seq<u8> {
    seq![115u8, 111u8, 117u8, 114u8, 99u8, 101u8, 102u8, 105u8, 108u8, 101u8]
}

/// The bytes of `sourcefilename`.
pub open spec fn spec_srcname_key() -> Seq<u8> {
    seq![
        115u8,
        111u8,
        117u8,
        114u8,
        99u8,
        101u8,
        102u8,
        105u8,
        108u8,
        101u8,
        110u8,
        97u8,
        109u8,
        101u8,
    ]
}

/// The document's events applied in order.
pub open spec fn spec_jacoco_run(st: JacocoState, evs: Seq<crate::xml::XmlEventView>) -> JacocoState
    decreases evs.len(),
{
    if evs.len() == 0 {
        st
    } else {
        spec_jacoco_run(spec_jacoco_step(st, evs[0]), evs.drop_first())
    }
}

/// The file records a JaCoCo document parses to: one per `</sourcefile>`,
/// an unclosed trailing file flushed at the end.
pub open spec fn spec_parse_jacoco(evs: Seq<crate::xml::XmlEventView>) -> Seq<
    crate::model::FileCoverageView,
> {
    let st = spec_jacoco_run(
        JacocoState {
            files: Seq::empty(),
            cur: None,
            branch_counts: Seq::empty(),
            package: None,
            class_source: None,
            class_methods: Seq::empty(),
            in_method: false,
            method_name: None,
            method_line: None,
            method_hit: false,
        },
        evs,
    );
    match st.cur {
        Some(f) => st.files.push(f),
        None => st.files,
    }
}


/// Emitted branch arms keep every row on line 1 or later.
proof fn lemma_jac_arms_pos(
    branches: Seq<BranchCoverage>,
    ln: u32,
    cb: u32,
    total: u64,
    idx: u32,
    i: int,
)
    requires
        ln >= 1,
        forall|j: int| 0 <= j < branches.len() ==> (#[trigger] branches[j]).line_number >= 1,
    ensures
        forall|j: int|
            0 <= j < spec_jac_arms(branches, ln, cb, total, idx, i).0.len() ==> (
            #[trigger] spec_jac_arms(branches, ln, cb, total, idx, i).0[j]).line_number >= 1,
    decreases total as int - i,
{
    if i < 0 || i >= total as int {
    } else {
        let b1 = branches.push(
            BranchCoverage {
                line_number: ln,
                branch_index: idx,
                hit_count: if i < cb as int {
                    1u64
                } else {
                    0u64
                },
            },
        );
        let idx1 = if idx == u32::MAX {
            idx
        } else {
            (idx + 1) as u32
        };
        assert(forall|j: int| 0 <= j < b1.len() ==> (#[trigger] b1[j]).line_number >= 1);
        lemma_jac_arms_pos(b1, ln, cb, total, idx1, i + 1);
        assert forall|j: int|
            0 <= j < spec_jac_arms(branches, ln, cb, total, idx, i).0.len() implies (
        #[trigger] spec_jac_arms(branches, ln, cb, total, idx, i).0[j]).line_number >= 1 by {
            assert(spec_jac_arms(branches, ln, cb, total, idx, i).0[j] == spec_jac_arms(
                b1,
                ln,
                cb,
                total,
                idx1,
                i + 1,
            ).0[j]);
        }
    }
}

/// Whether every record seen so far, open or flushed, keeps its rows on
/// line 1 or later.
pub open spec fn jacoco_state_positive(st: JacocoState) -> bool {
    (forall|k: int|
        0 <= k < st.files.len() ==> crate::model::rows_positive(#[trigger] st.files[k])) && (
    match st.cur {
        Some(f) => crate::model::rows_positive(f),
        None => true,
    })
}

/// One event keeps every record's rows on line 1 or later.
#[verifier::rlimit(100)]
proof fn lemma_jacoco_step_pos(st: JacocoState, ev: crate::xml::XmlEventView)
    requires
        jacoco_state_positive(st),
    ensures
        jacoco_state_positive(spec_jacoco_step(st, ev)),
{
    let st2 = spec_jacoco_step(st, ev);
    match ev {
        crate::xml::XmlEventView::Open { name, attrs, self_closing } => {
            if name == seq![108u8, 105u8, 110u8, 101u8] {
                match st.cur {
                    None => {},
                    Some(f) => match crate::parsers::clover::spec_attr_u32(
                        attrs,
                        seq![110u8, 114u8],
                    ) {
                        None => {},
                        Some(ln) => {
                            let ci = crate::parsers::clover::spec_attr_u64_or_zero(
                                attrs,
                                seq![99u8, 105u8],
                            );
                            let mi = crate::parsers::clover::spec_attr_u64_or_zero(
                                attrs,
                                seq![109u8, 105u8],
                            );
                            let cb = spec_attr_u32_or_zero(attrs, seq![99u8, 98u8]);
                            let mb = spec_attr_u32_or_zero(attrs, seq![109u8, 98u8]);
                            crate::parsers::clover::lemma_insert_stable_pos(
                                f.lines,
                                LineCoverage { line_number: ln, hit_count: ci },
                            );
                            let f1 = if ci > 0 || mi > 0 {
                                crate::model::FileCoverageView {
                                    lines: spec_insert_line_stable(
                                        f.lines,
                                        LineCoverage { line_number: ln, hit_count: ci },
                                    ),
                                    ..f
                                }
                            } else {
                                f
                            };
                            let total: u64 = (cb as u64 + mb as u64) as u64;
                            if total > 0 && ln >= 1 {
                                let idx0 = match crate::parsers::lcov::assoc_u32(
                                    st.branch_counts,
                                    ln,
                                ) {
                                    Some(v) => v,
                                    None => 0u32,
                                };
                                lemma_jac_arms_pos(f1.branches, ln, cb, total, idx0, 0);
                            }
                        },
                    },
                }
            }
        },
        crate::xml::XmlEventView::Close { name } => {
            if name == spec_sourcefile_tag() {
                match st.cur {
                    Some(f) => {
                        assert forall|k: int|
                            0 <= k < st2.files.len() implies crate::model::rows_positive(
                            #[trigger] st2.files[k],
                        ) by {
                            if k < st.files.len() {
                                assert(st2.files[k] == st.files[k]);
                            } else {
                                assert(st2.files[k] == f);
                            }
                        }
                    },
                    None => {},
                }
            }
        },
        crate::xml::XmlEventView::Text { .. } => {},
    }
}

/// The fold keeps every record's rows on line 1 or later.
proof fn lemma_jacoco_run_pos(st: JacocoState, evs: Seq<crate::xml::XmlEventView>)
    requires
        jacoco_state_positive(st),
    ensures
        jacoco_state_positive(spec_jacoco_run(st, evs)),
    decreases evs.len(),
{
    if evs.len() == 0 {
    } else {
        lemma_jacoco_step_pos(st, evs[0]);
        lemma_jacoco_run_pos(spec_jacoco_step(st, evs[0]), evs.drop_first());
    }
}

/// Law: every line and branch row a parse emits sits on line 1 or later.
pub proof fn lemma_jacoco_rows_positive(evs: Seq<crate::xml::XmlEventView>)
    ensures
        forall|k: int|
            0 <= k < spec_parse_jacoco(evs).len() ==> crate::model::rows_positive(
                #[trigger] spec_parse_jacoco(evs)[k],
            ),
{
    let init = JacocoState {
        files: Seq::empty(),
        cur: None,
        branch_counts: Seq::empty(),
        package: None,
        class_source: None,
        class_methods: Seq::empty(),
        in_method: false,
        method_name: None,
        method_line: None,
        method_hit: false,
    };
    assert(jacoco_state_positive(init));
    lemma_jacoco_run_pos(init, evs);
    let st = spec_jacoco_run(init, evs);
    match st.cur {
        Some(f) => {
            let files = st.files.push(f);
            assert forall|k: int|
                0 <= k < files.len() implies crate::model::rows_positive(
                #[trigger] files[k],
            ) by {
                if k < st.files.len() {
                    assert(files[k] == st.files[k]);
                } else {
                    assert(files[k] == f);
                }
            }
        },
        None => {},
    }
}

/// The mathematical image of the method buffers.
pub open spec fn view_cm(cm: &Vec<((String, String), Vec<FunctionCoverage>)>) -> Seq<
    ((Seq<char>, Seq<char>), Seq<crate::model::FunctionCoverageView>),
> {
    Seq::new(cm@.len(), |i: int| ((cm@[i].0.0@, cm@[i].0.1@), cm@[i].1.deep_view()))
}

/// `spec_cm_get`/`spec_cm_remove` act at the first matching index.
proof fn lemma_cm_at(
    s: Seq<((Seq<char>, Seq<char>), Seq<crate::model::FunctionCoverageView>)>,
    key: (Seq<char>, Seq<char>),
    j: int,
)
    requires
        0 <= j <= s.len(),
        forall|k: int| 0 <= k < j ==> (#[trigger] s[k]).0 != key,
        j < s.len() ==> s[j].0 == key,
    ensures
        j < s.len() ==> spec_cm_get(s, key) == Some(s[j].1) && spec_cm_remove(s, key)
            =~= s.subrange(0, j) + s.subrange(j + 1, s.len() as int),
        j == s.len() ==> spec_cm_get(s, key) is None && spec_cm_remove(s, key) =~= s,
    decreases s.len(),
{
    if s.len() == 0 {
    } else if s[0].0 == key {
        assert(j == 0);
        assert(s.drop_first() =~= s.subrange(0, 0) + s.subrange(1, s.len() as int));
    } else {
        let rest = s.drop_first();
        assert(forall|k: int| 0 <= k < rest.len() ==> #[trigger] rest[k] == s[k + 1]);
        assert(j > 0);
        lemma_cm_at(rest, key, j - 1);
        if j < s.len() {
            assert(seq![s[0]] + (rest.subrange(0, j - 1) + rest.subrange(j, rest.len() as int))
                =~= s.subrange(0, j) + s.subrange(j + 1, s.len() as int));
        } else {
            assert(seq![s[0]] + rest =~= s);
        }
    }
}

/// `spec_cm_add` appends to the first matching buffer or adds a new one.
proof fn lemma_cm_add_at(
    s: Seq<((Seq<char>, Seq<char>), Seq<crate::model::FunctionCoverageView>)>,
    key: (Seq<char>, Seq<char>),
    row: crate::model::FunctionCoverageView,
    j: int,
)
    requires
        0 <= j <= s.len(),
        forall|k: int| 0 <= k < j ==> (#[trigger] s[k]).0 != key,
        j < s.len() ==> s[j].0 == key,
    ensures
        j < s.len() ==> spec_cm_add(s, key, row) =~= s.update(j, (s[j].0, s[j].1.push(row))),
        j == s.len() ==> spec_cm_add(s, key, row) =~= s.push((key, seq![row])),
    decreases s.len(),
{
    if s.len() == 0 {
    } else if s[0].0 == key {
        assert(j == 0);
        assert(seq![(s[0].0, s[0].1.push(row))] + s.drop_first() =~= s.update(
            0,
            (s[0].0, s[0].1.push(row)),
        ));
    } else {
        let rest = s.drop_first();
        assert(forall|k: int| 0 <= k < rest.len() ==> #[trigger] rest[k] == s[k + 1]);
        assert(j > 0);
        lemma_cm_add_at(rest, key, row, j - 1);
        if j < s.len() {
            assert(seq![s[0]] + rest.update(j - 1, (s[j].0, s[j].1.push(row))) =~= s.update(
                j,
                (s[j].0, s[j].1.push(row)),
            ));
        } else {
            assert(seq![s[0]] + rest.push((key, seq![row])) =~= s.push((key, seq![row])));
        }
    }
}

/// A `u32` attribute parsed, zero when absent or unreadable.
pub fn attr_u32_or_zero(attrs: &Vec<(Vec<u8>, String)>, key: &[u8]) -> (r: u32)
    ensures
        r == spec_attr_u32_or_zero(crate::xml::view_attrs(attrs), key@),
{
    match crate::parsers::clover::attr_u32(attrs, key) {
        Some(v) => v,
        None => 0,
    }
}

/// Parse JaCoCo XML coverage data from raw bytes. One file record is
/// emitted per `</sourcefile>`, an unclosed one at the end of input.
#[verifier::rlimit(100)]
pub fn parse(input: &[u8]) -> (r: Result<CoverageData, CovrsError>)
    ensures
        match crate::xml::spec_xml_events(input@) {
            Some(evs) => r matches Ok(d) && d@ == spec_parse_jacoco(evs) && files_sorted(d@),
            None => r matches Err(e) && e matches CovrsError::Xml { position } && position
                == spec_xml_error_pos(input@),
        },
{
    let events = match read_xml_events(input) {
        Ok(evs) => evs,
        Err(pos) => {
            return Err(CovrsError::Xml { position: pos });
        },
    };
    let ghost all = events.deep_view();
    let ghost init = JacocoState {
        files: Seq::empty(),
        cur: None,
        branch_counts: Seq::empty(),
        package: None,
        class_source: None,
        class_methods: Seq::empty(),
        in_method: false,
        method_name: None,
        method_line: None,
        method_hit: false,
    };
    let mut files: Vec<FileCoverage> = Vec::new();
    let mut current_package: Option<String> = None;
    let mut cur: Option<FileCoverage> = None;
    let mut branch_counts: Vec<(u32, u32)> = Vec::new();
    let mut class_methods: Vec<((String, String), Vec<FunctionCoverage>)> = Vec::new();
    let mut current_class_source: Option<String> = None;
    let mut in_method: bool = false;
    let mut method_name: Option<String> = None;
    let mut method_line: Option<u32> = None;
    let mut method_hit: bool = false;
    let n = events.len();
    let mut i: usize = 0;
    proof {
        assert(events.deep_view().len() == events@.len());
        assert(all.skip(0) =~= all);
        assert(files.deep_view() =~= Seq::<crate::model::FileCoverageView>::empty());
        assert(view_cm(&class_methods) =~= Seq::<
            ((Seq<char>, Seq<char>), Seq<crate::model::FunctionCoverageView>),
        >::empty());
    }
    while i < n
        invariant
            n == events@.len() == all.len(),
            events.deep_view() == all,
            Some(all) == crate::xml::spec_xml_events(input@),
            init == (JacocoState {
                files: Seq::<crate::model::FileCoverageView>::empty(),
                cur: None::<crate::model::FileCoverageView>,
                branch_counts: Seq::<(u32, u32)>::empty(),
                package: None::<Seq<char>>,
                class_source: None::<Seq<char>>,
                class_methods: Seq::<
                    ((Seq<char>, Seq<char>), Seq<crate::model::FunctionCoverageView>),
                >::empty(),
                in_method: false,
                method_name: None::<Seq<char>>,
                method_line: None::<u32>,
                method_hit: false,
            }),
            0 <= i <= n,
            files_sorted(files.deep_view()),
            cur matches Some(f) ==> lines_sorted(f@.lines),
            spec_jacoco_run(init, all) == spec_jacoco_run(
                JacocoState {
                    files: files.deep_view(),
                    cur: crate::parsers::lcov::view_cur(&cur),
                    branch_counts: branch_counts@,
                    package: crate::diff::view_current(&current_package),
                    class_source: crate::diff::view_current(&current_class_source),
                    class_methods: view_cm(&class_methods),
                    in_method,
                    method_name: crate::diff::view_current(&method_name),
                    method_line,
                    method_hit,
                },
                all.skip(i as int),
            ),
        decreases n - i,
    {
        let ghost st = JacocoState {
            files: files.deep_view(),
            cur: crate::parsers::lcov::view_cur(&cur),
            branch_counts: branch_counts@,
            package: crate::diff::view_current(&current_package),
            class_source: crate::diff::view_current(&current_class_source),
            class_methods: view_cm(&class_methods),
            in_method,
            method_name: crate::diff::view_current(&method_name),
            method_line,
            method_hit,
        };
        proof {
            assert(all.skip(i as int)[0] == all[i as int]);
            assert(all.skip(i as int).drop_first() =~= all.skip(i + 1));
            assert(all[i as int] == events@[i as int]@);
        }
        let ev: &XmlEvent = &events[i];
        match ev {
            XmlEvent::Open { name, attrs, self_closing } => {
                proof {
                    assert(all[i as int] matches crate::xml::XmlEventView::Open {
                        name: nv,
                        attrs: av,
                        ..
                    } ==> nv == name@ && av =~= crate::xml::view_attrs(attrs));
                }
                jacoco_open(
                    &mut cur,
                    &mut branch_counts,
                    &mut current_package,
                    &mut current_class_source,
                    &mut class_methods,
                    &mut in_method,
                    &mut method_name,
                    &mut method_line,
                    &mut method_hit,
                    name,
                    attrs,
                    *self_closing,
                    Ghost(files.deep_view()),
                );
            },
            XmlEvent::Close { name } => {
                jacoco_close(
                    &mut files,
                    &mut cur,
                    &mut current_package,
                    &mut current_class_source,
                    &mut class_methods,
                    &mut in_method,
                    &mut method_name,
                    &mut method_line,
                    method_hit,
                    name,
                    Ghost(branch_counts@),
                );
            },
            XmlEvent::Text { .. } => {},
        }
        proof {
            let st2 = JacocoState {
                files: files.deep_view(),
                cur: crate::parsers::lcov::view_cur(&cur),
                branch_counts: branch_counts@,
                package: crate::diff::view_current(&current_package),
                class_source: crate::diff::view_current(&current_class_source),
                class_methods: view_cm(&class_methods),
                in_method,
                method_name: crate::diff::view_current(&method_name),
                method_line,
                method_hit,
            };
            let sp = spec_jacoco_step(st, all[i as int]);
            assert(st2.files == sp.files);
            assert(st2.class_methods == sp.class_methods);
            assert(st2.branch_counts == sp.branch_counts);
            assert(st2.cur == sp.cur);
            assert(st2 == sp);
        }
        i += 1;
    }
    proof {
        assert(all.skip(n as int) =~= Seq::<crate::xml::XmlEventView>::empty());
    }
    let done = cur;
    match done {
        Some(f) => {
            let ghost fsv = files.deep_view();
            let ghost fv = f@;
            files.push(f);
            proof {
                assert(files.deep_view() =~= fsv.push(fv)) by {
                    assert(forall|k: int|
                        0 <= k < fsv.len() ==> #[trigger] files.deep_view()[k] == fsv[k]);
                    assert(files.deep_view()[fsv.len() as int] == fv);
                }
                assert forall|k: int|
                    0 <= k < files.deep_view().len() implies lines_sorted(
                    (#[trigger] files.deep_view()[k]).lines,
                ) by {
                    if k < fsv.len() {
                        assert(files.deep_view()[k] == fsv[k]);
                    } else {
                        assert(files.deep_view()[k] == fv);
                    }
                }
            }
        },
        None => {},
    }
    Ok(CoverageData { files })
}

} // verus!
