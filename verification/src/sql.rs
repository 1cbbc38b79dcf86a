//! SQL text builders for the embedded relational store: the multi-row
//! `VALUES` clause used by batched inserts, and the per-table source
//! expression that applies union semantics when more than one report is
//! stored.

use vstd::prelude::*;
use vstd::string::StringExecFns;

verus! {

/// The placeholder group for one row: `(?,?,…,?)` with `cols` marks.
pub open spec fn spec_row_group(cols: nat) -> Seq<char>
    decreases cols,
{
    if cols == 0 {
        seq!['(', ')']
    } else if cols == 1 {
        seq!['(', '?', ')']
    } else {
        spec_row_group((cols - 1) as nat).drop_last() + seq![',', '?', ')']
    }
}

/// The full clause: `rows` groups joined by commas.
pub open spec fn spec_multi_row(rows: nat, cols: nat) -> Seq<char>
    decreases rows,
{
    if rows == 0 {
        Seq::empty()
    } else if rows == 1 {
        spec_row_group(cols)
    } else {
        spec_multi_row((rows - 1) as nat, cols) + seq![','] + spec_row_group(cols)
    }
}

/// Generate a VALUES clause like `(?,?,?),(?,?,?),…` for `rows` rows of
/// `cols` positional placeholders each.
pub fn multi_row_values(rows: usize, cols: usize) -> (r: String)
    ensures
        r@ == spec_multi_row(rows as nat, cols as nat),
{
    let mut single = String::new();
    single.append("(");
    proof {
        reveal_strlit("(");
        reveal_strlit(")");
        reveal_strlit("?");
        reveal_strlit(",");
        reveal_strlit(",?");
    }
    let mut c: usize = 0;
    while c < cols
        invariant
            0 <= c <= cols,
            c == 0 ==> single@ =~= seq!['('],
            c > 0 ==> single@ =~= spec_row_group(c as nat).drop_last(),
        decreases cols - c,
    {
        if c > 0 {
            single.append(",?");
        } else {
            single.append("?");
        }
        proof {
            reveal_strlit("?");
            reveal_strlit(",?");
            if c > 0 {
                assert(spec_row_group((c + 1) as nat).drop_last() =~= spec_row_group(
                    c as nat,
                ).drop_last() + seq![',', '?']);
            } else {
                assert(spec_row_group(1).drop_last() =~= seq!['(', '?']);
            }
        }
        c += 1;
    }
    single.append(")");
    proof {
        reveal_strlit(")");
        if cols == 0 {
            assert(single@ =~= spec_row_group(0));
        } else {
            assert(spec_row_group(cols as nat) =~= spec_row_group(cols as nat).drop_last()
                + seq![')']);
        }
    }
    let mut out = String::new();
    let mut i: usize = 0;
    proof {
        assert(out@ =~= spec_multi_row(0, cols as nat));
    }
    while i < rows
        invariant
            0 <= i <= rows,
            single@ == spec_row_group(cols as nat),
            out@ == spec_multi_row(i as nat, cols as nat),
        decreases rows - i,
    {
        if i > 0 {
            out.append(",");
            proof {
                reveal_strlit(",");
            }
        }
        out.append(single.as_str());
        proof {
            if i == 0 {
                assert(out@ =~= spec_multi_row(1, cols as nat));
            }
        }
        i += 1;
    }
    out
}

/// Which coverage table to build a union source for.
#[derive(Debug, Clone, Copy, PartialEq, Eq, Structural)]
pub enum UnionKind {
    Line,
    /// Line source that also projects the file id for per-file grouping.
    LinePerFile,
    Branch,
    /// Branch source that also projects the file id for per-file grouping.
    BranchPerFile,
    Function,
}

/// A SQL fragment naming the coverage table directly, or a subquery that
/// collapses duplicate keys with `MAX(hit_count)` when several reports
/// are stored and union semantics apply. Queries in this crate run in the
/// verified store; this fragment spells the SQL shape those union
/// semantics correspond to, for callers that query the database itself.
pub fn union_source(union: bool, kind: UnionKind) -> (r: &'static str)
    ensures
        !union && (kind is Line || kind is LinePerFile) ==> r@ == ("line_coverage")@,
        !union && (kind is Branch || kind is BranchPerFile) ==> r@ == ("branch_coverage")@,
        !union && kind is Function ==> r@ == ("function_coverage")@,
        union && kind is Line ==> r@ == (
        "(SELECT source_file_id, MAX(hit_count) AS hit_count FROM line_coverage GROUP BY source_file_id, line_number)")@,
        union && kind is LinePerFile ==> r@ == (
        "(SELECT source_file_id, line_number, MAX(hit_count) AS hit_count FROM line_coverage GROUP BY source_file_id, line_number)")@,
        union && kind is Branch ==> r@ == (
        "(SELECT MAX(hit_count) AS hit_count FROM branch_coverage GROUP BY source_file_id, line_number, branch_index)")@,
        union && kind is BranchPerFile ==> r@ == (
        "(SELECT source_file_id, MAX(hit_count) AS hit_count FROM branch_coverage GROUP BY source_file_id, line_number, branch_index)")@,
        union && kind is Function ==> r@ == (
        "(SELECT MAX(hit_count) AS hit_count FROM function_coverage GROUP BY source_file_id, name, COALESCE(start_line, -1))")@,
    {
    match (union, kind) {
        (false, UnionKind::Line) => "line_coverage",
        (false, UnionKind::LinePerFile) => "line_coverage",
        (true, UnionKind::Line) => "(SELECT source_file_id, MAX(hit_count) AS hit_count FROM line_coverage GROUP BY source_file_id, line_number)",
        (true, UnionKind::LinePerFile) => "(SELECT source_file_id, line_number, MAX(hit_count) AS hit_count FROM line_coverage GROUP BY source_file_id, line_number)",
        (false, UnionKind::Branch) => "branch_coverage",
        (false, UnionKind::BranchPerFile) => "branch_coverage",
        (true, UnionKind::Branch) => "(SELECT MAX(hit_count) AS hit_count FROM branch_coverage GROUP BY source_file_id, line_number, branch_index)",
        (true, UnionKind::BranchPerFile) => "(SELECT source_file_id, MAX(hit_count) AS hit_count FROM branch_coverage GROUP BY source_file_id, line_number, branch_index)",
        (false, UnionKind::Function) => "function_coverage",
        (true, UnionKind::Function) => "(SELECT MAX(hit_count) AS hit_count FROM function_coverage GROUP BY source_file_id, name, COALESCE(start_line, -1))",
    }
}

} // verus!
