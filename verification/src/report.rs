//! Range coalescing and rendering for diff-coverage results: compressing a
//! sorted list of missed line numbers into inclusive `(start, end)` ranges,
//! bridging small gaps that contain no instrumentable line.

use vstd::prelude::*;
use vstd::slice::slice_index_get;
use vstd::string::{StrSliceExecFns, StringExecFns};
use crate::model::sorted_strict;

verus! {

/// Maximum number of consecutive non-instrumentable lines that can be
/// bridged when coalescing uncovered ranges.
pub const MAX_BRIDGE_GAP: u32 = 2;

/// Whether the gap between `end` (exclusive) and `line` (exclusive) may be
/// bridged: it is at most `MAX_BRIDGE_GAP` wide and contains no
/// instrumentable line.
pub open spec fn gap_bridgeable(end: u32, line: u32, inst: Seq<u32>) -> bool {
    line - end - 1 <= MAX_BRIDGE_GAP && (forall|x: u32| end < x < line ==> !inst.contains(x))
}

/// The ranges emitted for the remaining `lines` once a range from `start`
/// to `end` is open.
pub open spec fn spec_coalesce_from(lines: Seq<u32>, start: u32, end: u32, inst: Seq<u32>) -> Seq<
    (u32, u32),
>
    decreases lines.len(),
{
    if lines.len() == 0 {
        seq![(start, end)]
    } else {
        let l = lines[0];
        if gap_bridgeable(end, l, inst) {
            spec_coalesce_from(lines.drop_first(), start, l, inst)
        } else {
            seq![(start, end)] + spec_coalesce_from(lines.drop_first(), l, l, inst)
        }
    }
}

/// The coalesced ranges of `lines`, given the file's instrumentable lines.
pub open spec fn spec_coalesce(lines: Seq<u32>, inst: Seq<u32>) -> Seq<(u32, u32)> {
    if lines.len() == 0 {
        Seq::empty()
    } else {
        spec_coalesce_from(lines.drop_first(), lines[0], lines[0], inst)
    }
}

/// Whether `ln` falls inside one of the ranges.
pub open spec fn in_some_range(rs: Seq<(u32, u32)>, ln: u32) -> bool {
    exists|k: int| 0 <= k < rs.len() && (#[trigger] rs[k]).0 <= ln <= rs[k].1
}

/// Whether the slice holds `x`.
fn contains_u32(s: &[u32], x: u32) -> (r: bool)
    ensures
        r == s@.contains(x),
{
    let n = s.len();
    let mut i: usize = 0;
    while i < n
        invariant
            n == s@.len(),
            0 <= i <= n,
            forall|j: int| 0 <= j < i ==> s@[j] != x,
        decreases n - i,
    {
        if *slice_index_get(s, i) == x {
            assert(s@.contains(x));
            return true;
        }
        i += 1;
    }
    assert(!s@.contains(x));
    false
}

/// Coalesce sorted line numbers into inclusive `(start, end)` ranges,
/// bridging gaps of at most `MAX_BRIDGE_GAP` lines in which no line is
/// instrumentable.
///
/// Both `lines` and `all_instrumentable` must be sorted and deduplicated.
pub fn coalesce_ranges(lines: &[u32], all_instrumentable: &[u32]) -> (r: Vec<(u32, u32)>)
    requires
        sorted_strict(lines@),
        sorted_strict(all_instrumentable@),
    ensures
        r@ == spec_coalesce(lines@, all_instrumentable@),
{
    let mut r: Vec<(u32, u32)> = Vec::new();
    if lines.len() == 0 {
        assert(r@ =~= spec_coalesce(lines@, all_instrumentable@));
        return r;
    }
    let mut start: u32 = *slice_index_get(lines, 0);
    let mut end: u32 = start;
    let n = lines.len();
    let mut i: usize = 1;
    while i < n
        invariant
            n == lines@.len(),
            1 <= i <= n,
            sorted_strict(lines@),
            sorted_strict(all_instrumentable@),
            i < n ==> end < lines@[i as int],
            spec_coalesce(lines@, all_instrumentable@) == r@ + spec_coalesce_from(
                lines@.skip(i as int),
                start,
                end,
                all_instrumentable@,
            ),
        decreases n - i,
    {
        let l = *slice_index_get(lines, i);
        let ghost rest = lines@.skip(i as int);
        proof {
            assert(rest[0] == lines@[i as int]);
            assert(rest.drop_first() =~= lines@.skip(i + 1));
        }
        let gap: u32 = l - end - 1;
        let mut bridge: bool = gap <= MAX_BRIDGE_GAP;
        // A narrow gap is bridged only when none of its lines is
        // instrumentable.
        let mut x: u32 = end + 1;
        while bridge && x < l
            invariant
                end < x <= l,
                bridge ==> forall|y: u32| end < y < x ==> !all_instrumentable@.contains(y),
                bridge ==> gap <= MAX_BRIDGE_GAP,
                !bridge ==> (gap > MAX_BRIDGE_GAP || exists|y: u32|
                    end < y < l && all_instrumentable@.contains(y)),
                gap == l - end - 1,
            decreases l - x,
        {
            if contains_u32(all_instrumentable, x) {
                assert(end < x < l && all_instrumentable@.contains(x));
                bridge = false;
            }
            x += 1;
        }
        proof {
            if bridge {
                assert(gap_bridgeable(end, l, all_instrumentable@));
            } else if gap <= MAX_BRIDGE_GAP {
                let y = choose|y: u32| end < y < l && all_instrumentable@.contains(y);
                assert(all_instrumentable@.contains(y));
                assert(!gap_bridgeable(end, l, all_instrumentable@));
            } else {
                assert(!gap_bridgeable(end, l, all_instrumentable@));
            }
        }
        if bridge {
            end = l;
        } else {
            r.push((start, end));
            start = l;
            end = l;
        }
        i += 1;
        proof {
            if i < n {
                assert(lines@[i - 1] < lines@[i as int]);
            }
        }
    }
    proof {
        assert(lines@.skip(n as int) =~= Seq::<u32>::empty());
    }
    r.push((start, end));
    r
}

/// Law of the range coalescer: on sorted, deduplicated missed lines the
/// emitted ranges are ordered and well formed, their endpoints are missed
/// lines, every missed line falls in a range, a line inside a range that is
/// not missed is not instrumentable (it was bridged), and two successive
/// ranges are never separated by a bridgeable gap.
pub proof fn lemma_coalesce_ranges(lines: Seq<u32>, inst: Seq<u32>)
    requires
        sorted_strict(lines),
    ensures
        ({
            let rs = spec_coalesce(lines, inst);
            &&& forall|k: int| 0 <= k < rs.len() ==> (#[trigger] rs[k]).0 <= rs[k].1
            &&& forall|k: int|
                0 <= k < rs.len() ==> lines.contains((#[trigger] rs[k]).0) && lines.contains(
                    rs[k].1,
                )
            &&& forall|ln: u32|
                #![trigger in_some_range(rs, ln)]
                lines.contains(ln) ==> in_some_range(rs, ln)
            &&& forall|k: int, x: u32|
                #![trigger rs[k], inst.contains(x)]
                0 <= k < rs.len() && rs[k].0 <= x <= rs[k].1 && !lines.contains(x)
                    ==> !inst.contains(x)
            &&& forall|k: int|
                0 <= k < rs.len() - 1 ==> (#[trigger] rs[k]).1 < rs[k + 1].0 && !gap_bridgeable(
                    rs[k].1,
                    rs[k + 1].0,
                    inst,
                )
            &&& forall|k: int, x: u32|
                #![trigger rs[k], in_bridged_gap(lines, x)]
                0 <= k < rs.len() && rs[k].0 <= x <= rs[k].1 && !lines.contains(x)
                    ==> in_bridged_gap(lines, x)
        }),
{
    if lines.len() > 0 {
        let rest = lines.drop_first();
        let first = lines[0];
        assert(forall|j: int| 0 <= j < rest.len() ==> #[trigger] rest[j] == lines[j + 1]);
        assert(lines.contains(first));
        let rs = spec_coalesce(lines, inst);
        assert(rs == spec_coalesce_from(rest, first, first, inst));
        lemma_cf_wf(rest, first, first, lines, inst);
        lemma_cf_cover(rest, first, first, inst);
        lemma_cf_tight(rest, first, first, lines, inst);
        lemma_cf_gap(rest, first, first, lines, inst);
        lemma_cf_sep(rest, first, first, inst);
        assert forall|ln: u32| lines.contains(ln) implies #[trigger] in_some_range(rs, ln) by {
            let j = choose|j: int| 0 <= j < lines.len() && lines[j] == ln;
            if j == 0 {
                assert(rest.contains(ln) || first <= ln <= first);
            } else {
                assert(rest[j - 1] == ln);
                assert(rest.contains(ln));
            }
        }
    }
}

/// Preconditions shared by the inductive steps below: the remaining lines
/// are sorted and sit strictly after the open range.
pub open spec fn coalesce_pre(lines: Seq<u32>, start: u32, end: u32) -> bool {
    &&& sorted_strict(lines)
    &&& forall|j: int| 0 <= j < lines.len() ==> end < #[trigger] lines[j]
    &&& start <= end
}


/// Whether `x` sits in a bridged gap: strictly between two of the missed
/// lines that are at most `MAX_BRIDGE_GAP` lines apart.
pub open spec fn in_bridged_gap(orig: Seq<u32>, x: u32) -> bool {
    exists|a: u32, b: u32|
        orig.contains(a) && orig.contains(b) && a < x < b && b - a - 1 <= MAX_BRIDGE_GAP
}

/// Every in-range line that is not itself missed sits in a bridged gap.
proof fn lemma_cf_gap(lines: Seq<u32>, start: u32, end: u32, orig: Seq<u32>, inst: Seq<u32>)
    requires
        coalesce_pre(lines, start, end),
        forall|j: int| 0 <= j < lines.len() ==> orig.contains(#[trigger] lines[j]),
        orig.contains(start),
        orig.contains(end),
        forall|x: u32|
            #![trigger in_bridged_gap(orig, x)]
            start <= x <= end && !orig.contains(x) ==> in_bridged_gap(orig, x),
    ensures
        ({
            let rs = spec_coalesce_from(lines, start, end, inst);
            forall|k: int, x: u32|
                #![trigger rs[k], in_bridged_gap(orig, x)]
                0 <= k < rs.len() && rs[k].0 <= x <= rs[k].1 && !orig.contains(x)
                    ==> in_bridged_gap(orig, x)
        }),
    decreases lines.len(),
{
    let rs = spec_coalesce_from(lines, start, end, inst);
    if lines.len() == 0 {
        assert(rs =~= seq![(start, end)]);
    } else {
        let l = lines[0];
        let rest = lines.drop_first();
        assert(forall|j: int| 0 <= j < rest.len() ==> #[trigger] rest[j] == lines[j + 1]);
        assert(lines.contains(l));
        assert(orig.contains(l));
        if gap_bridgeable(end, l, inst) {
            assert forall|x: u32|
                #![trigger in_bridged_gap(orig, x)]
                start <= x <= l && !orig.contains(x) implies in_bridged_gap(orig, x) by {
                if x <= end {
                } else if x < l {
                    assert(orig.contains(end) && orig.contains(l) && end < x < l && l - end - 1
                        <= MAX_BRIDGE_GAP);
                } else {
                    assert(x == l);
                }
            }
            lemma_cf_gap(rest, start, l, orig, inst);
            let rs2 = spec_coalesce_from(rest, start, l, inst);
            assert(rs == rs2);
            assert forall|k: int, x: u32|
                #![trigger rs[k], in_bridged_gap(orig, x)]
                0 <= k < rs.len() && rs[k].0 <= x <= rs[k].1 && !orig.contains(
                    x,
                ) implies in_bridged_gap(orig, x) by {
                assert(rs2[k].0 <= x <= rs2[k].1);
            }
        } else {
            lemma_cf_gap(rest, l, l, orig, inst);
            let rs2 = spec_coalesce_from(rest, l, l, inst);
            assert(rs =~= seq![(start, end)] + rs2);
            assert(forall|k: int| 0 <= k < rs2.len() ==> rs[k + 1] == #[trigger] rs2[k]);
            assert(rs[0] == (start, end));
            assert forall|k: int, x: u32|
                #![trigger rs[k], in_bridged_gap(orig, x)]
                0 <= k < rs.len() && rs[k].0 <= x <= rs[k].1 && !orig.contains(
                    x,
                ) implies in_bridged_gap(orig, x) by {
                if k == 0 {
                } else {
                    assert(rs2[k - 1].0 <= x <= rs2[k - 1].1);
                }
            }
        }
    }
}

/// Emitted ranges are ordered intervals whose endpoints are lines of `orig`.
proof fn lemma_cf_wf(lines: Seq<u32>, start: u32, end: u32, orig: Seq<u32>, inst: Seq<u32>)
    requires
        coalesce_pre(lines, start, end),
        forall|j: int| 0 <= j < lines.len() ==> orig.contains(#[trigger] lines[j]),
        orig.contains(start),
        orig.contains(end),
    ensures
        ({
            let rs = spec_coalesce_from(lines, start, end, inst);
            &&& rs.len() > 0
            &&& rs[0].0 == start
            &&& forall|k: int| 0 <= k < rs.len() ==> start <= (#[trigger] rs[k]).0 <= rs[k].1
            &&& forall|k: int|
                0 <= k < rs.len() ==> orig.contains((#[trigger] rs[k]).0) && orig.contains(rs[k].1)
        }),
    decreases lines.len(),
{
    let rs = spec_coalesce_from(lines, start, end, inst);
    if lines.len() == 0 {
        assert(rs =~= seq![(start, end)]);
    } else {
        let l = lines[0];
        let rest = lines.drop_first();
        assert(forall|j: int| 0 <= j < rest.len() ==> #[trigger] rest[j] == lines[j + 1]);
        assert(lines.contains(l));
        if gap_bridgeable(end, l, inst) {
            lemma_cf_wf(rest, start, l, orig, inst);
        } else {
            lemma_cf_wf(rest, l, l, orig, inst);
            let rs2 = spec_coalesce_from(rest, l, l, inst);
            assert(rs =~= seq![(start, end)] + rs2);
            assert(forall|k: int| 0 <= k < rs2.len() ==> rs[k + 1] == #[trigger] rs2[k]);
            assert(rs[0] == (start, end));
            assert forall|k: int| 0 <= k < rs.len() implies start <= (#[trigger] rs[k]).0
                <= rs[k].1 by {
                if k > 0 {
                    assert(rs[k] == rs2[k - 1]);
                }
            }
            assert forall|k: int|
                0 <= k < rs.len() implies orig.contains((#[trigger] rs[k]).0) && orig.contains(
                rs[k].1,
            ) by {
                if k > 0 {
                    assert(rs[k] == rs2[k - 1]);
                }
            }
        }
    }
}

/// Every remaining line and the open range itself fall inside an emitted
/// range.
proof fn lemma_cf_cover(lines: Seq<u32>, start: u32, end: u32, inst: Seq<u32>)
    requires
        coalesce_pre(lines, start, end),
    ensures
        ({
            let rs = spec_coalesce_from(lines, start, end, inst);
            forall|ln: u32|
                #![trigger in_some_range(rs, ln)]
                lines.contains(ln) || start <= ln <= end ==> in_some_range(rs, ln)
        }),
    decreases lines.len(),
{
    let rs = spec_coalesce_from(lines, start, end, inst);
    if lines.len() == 0 {
        assert(rs =~= seq![(start, end)]);
        assert forall|ln: u32| lines.contains(ln) || start <= ln <= end implies #[trigger] in_some_range(
            rs,
            ln,
        ) by {
            assert(!lines.contains(ln));
            assert(rs[0].0 <= ln <= rs[0].1);
        }
    } else {
        let l = lines[0];
        let rest = lines.drop_first();
        assert(forall|j: int| 0 <= j < rest.len() ==> #[trigger] rest[j] == lines[j + 1]);
        if gap_bridgeable(end, l, inst) {
            lemma_cf_cover(rest, start, l, inst);
            let rs2 = spec_coalesce_from(rest, start, l, inst);
            assert(rs == rs2);
            assert forall|ln: u32| lines.contains(ln) || start <= ln <= end implies #[trigger] in_some_range(
                rs,
                ln,
            ) by {
                if lines.contains(ln) {
                    let j = choose|j: int| 0 <= j < lines.len() && lines[j] == ln;
                    if j > 0 {
                        assert(rest[j - 1] == ln);
                        assert(rest.contains(ln));
                    }
                }
                assert(rest.contains(ln) || start <= ln <= l);
                assert(in_some_range(rs2, ln));
            }
        } else {
            lemma_cf_cover(rest, l, l, inst);
            let rs2 = spec_coalesce_from(rest, l, l, inst);
            assert(rs =~= seq![(start, end)] + rs2);
            assert(forall|k: int| 0 <= k < rs2.len() ==> rs[k + 1] == #[trigger] rs2[k]);
            assert(rs[0] == (start, end));
            assert forall|ln: u32| lines.contains(ln) || start <= ln <= end implies #[trigger] in_some_range(
                rs,
                ln,
            ) by {
                if start <= ln <= end {
                    assert(rs[0].0 <= ln <= rs[0].1);
                } else {
                    assert(lines.contains(ln));
                    let j = choose|j: int| 0 <= j < lines.len() && lines[j] == ln;
                    if j > 0 {
                        assert(rest[j - 1] == ln);
                        assert(rest.contains(ln));
                    }
                    assert(rest.contains(ln) || l <= ln <= l);
                    assert(in_some_range(rs2, ln));
                    let k = choose|k: int|
                        0 <= k < rs2.len() && (#[trigger] rs2[k]).0 <= ln <= rs2[k].1;
                    assert(rs[k + 1].0 <= ln <= rs[k + 1].1);
                }
            }
        }
    }
}

/// A line inside an emitted range that is not one of the given lines is not
/// instrumentable: only checked gaps were bridged.
proof fn lemma_cf_tight(lines: Seq<u32>, start: u32, end: u32, orig: Seq<u32>, inst: Seq<u32>)
    requires
        coalesce_pre(lines, start, end),
        forall|j: int| 0 <= j < lines.len() ==> orig.contains(#[trigger] lines[j]),
        orig.contains(start),
        orig.contains(end),
        forall|x: u32|
            #![trigger inst.contains(x)]
            start <= x <= end && !orig.contains(x) ==> !inst.contains(x),
    ensures
        ({
            let rs = spec_coalesce_from(lines, start, end, inst);
            forall|k: int, x: u32|
                #![trigger rs[k], inst.contains(x)]
                0 <= k < rs.len() && rs[k].0 <= x <= rs[k].1 && !orig.contains(x)
                    ==> !inst.contains(x)
        }),
    decreases lines.len(),
{
    let rs = spec_coalesce_from(lines, start, end, inst);
    if lines.len() == 0 {
        assert(rs =~= seq![(start, end)]);
    } else {
        let l = lines[0];
        let rest = lines.drop_first();
        assert(forall|j: int| 0 <= j < rest.len() ==> #[trigger] rest[j] == lines[j + 1]);
        assert(lines.contains(l));
        assert(orig.contains(l));
        if gap_bridgeable(end, l, inst) {
            assert forall|x: u32|
                #![trigger inst.contains(x)]
                start <= x <= l && !orig.contains(x) implies !inst.contains(x) by {
                if x <= end {
                } else if x < l {
                    assert(end < x < l);
                } else {
                    assert(x == l);
                }
            }
            lemma_cf_tight(rest, start, l, orig, inst);
            let rs2 = spec_coalesce_from(rest, start, l, inst);
            assert(rs == rs2);
            assert forall|k: int, x: u32|
                #![trigger rs[k], inst.contains(x)]
                0 <= k < rs.len() && rs[k].0 <= x <= rs[k].1 && !orig.contains(
                    x,
                ) implies !inst.contains(x) by {
                assert(rs2[k].0 <= x <= rs2[k].1);
            }
        } else {
            lemma_cf_tight(rest, l, l, orig, inst);
            let rs2 = spec_coalesce_from(rest, l, l, inst);
            assert(rs =~= seq![(start, end)] + rs2);
            assert(forall|k: int| 0 <= k < rs2.len() ==> rs[k + 1] == #[trigger] rs2[k]);
            assert(rs[0] == (start, end));
            assert forall|k: int, x: u32|
                #![trigger rs[k], inst.contains(x)]
                0 <= k < rs.len() && rs[k].0 <= x <= rs[k].1 && !orig.contains(
                    x,
                ) implies !inst.contains(x) by {
                if k == 0 {
                    assert(start <= x <= end);
                } else {
                    assert(rs[k] == rs2[k - 1]);
                }
            }
        }
    }
}

/// Two successive emitted ranges are separated by a gap that cannot be
/// bridged.
proof fn lemma_cf_sep(lines: Seq<u32>, start: u32, end: u32, inst: Seq<u32>)
    requires
        coalesce_pre(lines, start, end),
    ensures
        ({
            let rs = spec_coalesce_from(lines, start, end, inst);
            &&& rs.len() > 0
            &&& rs[0].0 == start
            &&& end <= rs[0].1
            &&& forall|k: int| 0 <= k < rs.len() ==> start <= (#[trigger] rs[k]).0 <= rs[k].1
            &&& forall|k: int|
                0 <= k < rs.len() - 1 ==> (#[trigger] rs[k]).1 < rs[k + 1].0 && !gap_bridgeable(
                    rs[k].1,
                    rs[k + 1].0,
                    inst,
                )
        }),
    decreases lines.len(),
{
    let rs = spec_coalesce_from(lines, start, end, inst);
    if lines.len() == 0 {
        assert(rs =~= seq![(start, end)]);
    } else {
        let l = lines[0];
        let rest = lines.drop_first();
        assert(forall|j: int| 0 <= j < rest.len() ==> #[trigger] rest[j] == lines[j + 1]);
        if gap_bridgeable(end, l, inst) {
            lemma_cf_sep(rest, start, l, inst);
        } else {
            lemma_cf_sep(rest, l, l, inst);
            let rs2 = spec_coalesce_from(rest, l, l, inst);
            assert(rs =~= seq![(start, end)] + rs2);
            assert(forall|k: int| 0 <= k < rs2.len() ==> rs[k + 1] == #[trigger] rs2[k]);
            assert(rs[0] == (start, end));
            assert forall|k: int| 0 <= k < rs.len() implies start <= (#[trigger] rs[k]).0
                <= rs[k].1 by {
                if k > 0 {
                    assert(rs[k] == rs2[k - 1]);
                }
            }
            assert forall|k: int| 0 <= k < rs.len() - 1 implies (#[trigger] rs[k]).1 < rs[k + 1].0
                && !gap_bridgeable(rs[k].1, rs[k + 1].0, inst) by {
                if k == 0 {
                    assert(rs[1] == rs2[0]);
                    assert(rs2[0].0 == l);
                } else {
                    assert(rs[k] == rs2[k - 1]);
                    assert(rs[k + 1] == rs2[k]);
                }
            }
        }
    }
}


// ---------------------------------------------------------------------------
// Rendering
// ---------------------------------------------------------------------------

/// A coverage rate as the pair it is computed from.
#[derive(Debug, Clone, Copy, PartialEq, Eq, Structural)]
pub struct Rate {
    pub covered: u64,
    pub total: u64,
}

/// Tenths of a percent, rounded half up; zero when the total is zero.
pub open spec fn spec_pct_tenths(covered: int, total: int) -> int {
    if total <= 0 {
        0
    } else {
        (covered * 1000 + total / 2) / total
    }
}

/// Tenths of a percent of `covered / total`, rounded half up.
pub fn percent_tenths(covered: u64, total: u64) -> (r: u64)
    requires
        covered <= total,
    ensures
        r == spec_pct_tenths(covered as int, total as int),
        r <= 1000,
{
    if total == 0 {
        return 0;
    }
    let num: u128 = (covered as u128) * 1000 + (total as u128) / 2;
    let q: u128 = num / (total as u128);
    proof {
        assert((covered as int * 1000 + total as int / 2) / total as int <= 1000) by (nonlinear_arith)
            requires
                0 < total as int,
                0 <= covered as int <= total as int,
        ;
    }
    q as u64
}

/// The decimal rendering of a tenths-of-a-percent value, e.g. `66.7`.
pub open spec fn spec_pct_string(t: int) -> Seq<char> {
    crate::text::spec_u64_string((t / 10) as nat) + (".")@ + crate::text::spec_u64_string(
        (t % 10) as nat,
    )
}

/// Renders tenths of a percent with one decimal place.
pub fn format_pct(t: u64) -> (r: String)
    ensures
        r@ == spec_pct_string(t as int),
{
    let mut out = crate::text::u64_to_string(t / 10);
    out.append(".");
    proof {
        reveal_strlit(".");
    }
    let frac = crate::text::u64_to_string(t % 10);
    out.append(frac.as_str());
    out
}

/// The rendering of one range: `s` alone, or `s-e`.
pub open spec fn spec_range_str(s: u32, e: u32) -> Seq<char> {
    if s == e {
        crate::text::spec_u64_string(s as nat)
    } else {
        crate::text::spec_u64_string(s as nat) + ("-")@ + crate::text::spec_u64_string(e as nat)
    }
}

/// The ranges joined with `, `.
pub open spec fn spec_join_ranges(rs: Seq<(u32, u32)>) -> Seq<char>
    decreases rs.len(),
{
    if rs.len() == 0 {
        Seq::empty()
    } else if rs.len() == 1 {
        spec_range_str(rs[0].0, rs[0].1)
    } else {
        spec_join_ranges(rs.drop_last()) + (", ")@ + spec_range_str(rs.last().0, rs.last().1)
    }
}

fn range_str(s: u32, e: u32) -> (r: String)
    ensures
        r@ == spec_range_str(s, e),
{
    if s == e {
        crate::text::u64_to_string(s as u64)
    } else {
        let mut out = crate::text::u64_to_string(s as u64);
        out.append("-");
        proof {
            reveal_strlit("-");
        }
        let t = crate::text::u64_to_string(e as u64);
        out.append(t.as_str());
        out
    }
}

/// Format line numbers into compact range notation, e.g. `1, 3-5, 8`,
/// bridging non-instrumentable gaps as the coalescer does.
///
/// Both inputs must be sorted and deduplicated.
pub fn format_line_ranges(lines: &[u32], all_instrumentable: &[u32]) -> (r: String)
    requires
        sorted_strict(lines@),
        sorted_strict(all_instrumentable@),
    ensures
        r@ == spec_join_ranges(spec_coalesce(lines@, all_instrumentable@)),
{
    let ranges = coalesce_ranges(lines, all_instrumentable);
    let mut out = String::new();
    let n = ranges.len();
    let mut i: usize = 0;
    proof {
        assert(out@ =~= spec_join_ranges(ranges@.take(0)));
    }
    while i < n
        invariant
            n == ranges@.len(),
            ranges@ == spec_coalesce(lines@, all_instrumentable@),
            0 <= i <= n,
            out@ == spec_join_ranges(ranges@.take(i as int)),
        decreases n - i,
    {
        proof {
            assert(ranges@.take(i + 1).drop_last() =~= ranges@.take(i as int));
            assert(ranges@.take(i + 1).last() == ranges@[i as int]);
        }
        if i > 0 {
            out.append(", ");
            proof {
                reveal_strlit(", ");
            }
        }
        let piece = range_str(ranges[i].0, ranges[i].1);
        out.append(piece.as_str());
        i += 1;
    }
    proof {
        assert(ranges@.take(n as int) =~= ranges@);
    }
    out
}

/// The rendering of one linked range:
/// `[s-e](../blob/<sha>/<path>#Ls-Le)`.
pub open spec fn spec_link_str(s: u32, e: u32, sha: Seq<char>, path: Seq<char>) -> Seq<char> {
    ("[")@ + spec_range_str(s, e) + ("](../blob/")@ + sha + ("/")@ + path + ("#L")@
        + crate::text::spec_u64_string(s as nat) + (if s == e {
        Seq::<char>::empty()
    } else {
        ("-L")@ + crate::text::spec_u64_string(e as nat)
    }) + (")")@
}

/// The linked ranges joined with `, `.
pub open spec fn spec_join_links(rs: Seq<(u32, u32)>, sha: Seq<char>, path: Seq<char>) -> Seq<char>
    decreases rs.len(),
{
    if rs.len() == 0 {
        Seq::empty()
    } else if rs.len() == 1 {
        spec_link_str(rs[0].0, rs[0].1, sha, path)
    } else {
        spec_join_links(rs.drop_last(), sha, path) + (", ")@ + spec_link_str(
            rs.last().0,
            rs.last().1,
            sha,
            path,
        )
    }
}

fn link_str(s: u32, e: u32, sha: &str, path: &str) -> (r: String)
    ensures
        r@ == spec_link_str(s, e, sha@, path@),
{
    let mut out = ("[").to_owned();
    let piece = range_str(s, e);
    out.append(piece.as_str());
    out.append("](../blob/");
    out.append(sha);
    out.append("/");
    out.append(path);
    out.append("#L");
    let sn = crate::text::u64_to_string(s as u64);
    out.append(sn.as_str());
    if s != e {
        out.append("-L");
        let en = crate::text::u64_to_string(e as u64);
        out.append(en.as_str());
    }
    out.append(")");
    proof {
        reveal_strlit("[");
        reveal_strlit("](../blob/");
        reveal_strlit("/");
        reveal_strlit("#L");
        reveal_strlit("-L");
        reveal_strlit(")");
        assert(out@ =~= spec_link_str(s, e, sha@, path@));
    }
    out
}

/// Format line numbers into compact range notation with markdown links,
/// each range pointing at its lines in the blob for `sha`.
///
/// Both line inputs must be sorted and deduplicated.
pub fn format_line_ranges_linked(
    lines: &[u32],
    all_instrumentable: &[u32],
    sha: &str,
    path: &str,
) -> (r: String)
    requires
        sorted_strict(lines@),
        sorted_strict(all_instrumentable@),
    ensures
        r@ == spec_join_links(spec_coalesce(lines@, all_instrumentable@), sha@, path@),
{
    let ranges = coalesce_ranges(lines, all_instrumentable);
    let mut out = String::new();
    let n = ranges.len();
    let mut i: usize = 0;
    proof {
        assert(out@ =~= spec_join_links(ranges@.take(0), sha@, path@));
    }
    while i < n
        invariant
            n == ranges@.len(),
            ranges@ == spec_coalesce(lines@, all_instrumentable@),
            0 <= i <= n,
            out@ == spec_join_links(ranges@.take(i as int), sha@, path@),
        decreases n - i,
    {
        proof {
            assert(ranges@.take(i + 1).drop_last() =~= ranges@.take(i as int));
            assert(ranges@.take(i + 1).last() == ranges@[i as int]);
        }
        if i > 0 {
            out.append(", ");
            proof {
                reveal_strlit(", ");
            }
        }
        let piece = link_str(ranges[i].0, ranges[i].1, sha, path);
        out.append(piece.as_str());
        i += 1;
    }
    proof {
        assert(ranges@.take(n as int) =~= ranges@);
    }
    out
}


/// The headline percentage: covered capped at the total, in tenths.
pub open spec fn spec_capped_pct(covered: int, total: int) -> int {
    spec_pct_tenths(
        if covered > total {
            total
        } else {
            covered
        },
        total,
    )
}

/// A revision shortened to seven characters.
pub open spec fn spec_short_sha(s: Seq<char>) -> Seq<char> {
    if s.len() > 7 {
        s.take(7)
    } else {
        s
    }
}

/// Whether no result row has missed lines.
pub open spec fn spec_no_misses(files: Seq<crate::model::FileDiffCoverage>) -> bool {
    forall|k: int| 0 <= k < files.len() ==> (#[trigger] files[k]).missed_lines@.len() == 0
}

/// The text report's headline: the diff rate and the covered-of-total
/// counts.
pub open spec fn spec_text_header(r: &DiffCoverageReport) -> Seq<char> {
    ("Diff coverage: ")@ + spec_pct_string(
        spec_capped_pct(r.total_covered as int, r.total_instrumentable as int),
    ) + ("% (")@ + crate::text::spec_u64_string(r.total_covered as nat) + ("/")@
        + crate::text::spec_u64_string(r.total_instrumentable as nat) + (" lines covered)\n")@
}

/// The text report's closing project-rate line, for a known rate.
pub open spec fn spec_text_tail_some(rt: Rate) -> Seq<char> {
    if rt.covered <= rt.total {
        ("\nFull project coverage: ")@ + spec_pct_string(
            spec_pct_tenths(rt.covered as int, rt.total as int),
        ) + ("%\n")@
    } else {
        Seq::empty()
    }
}

/// The text report's closing project-rate line, when one is known.
pub open spec fn spec_text_tail(r: &DiffCoverageReport) -> Seq<char> {
    match r.total_rate {
        Some(rt) => spec_text_tail_some(rt),
        None => Seq::empty(),
    }
}


/// The missed-range text of one row: ranges over its instrumentable
/// lines, empty when its line lists are not strictly sorted.
pub open spec fn spec_missed_ranges(f: crate::model::FileDiffCoverage) -> Seq<char> {
    if sorted_strict(f.covered_lines@) && sorted_strict(f.missed_lines@) {
        spec_join_ranges(
            spec_coalesce(
                f.missed_lines@,
                crate::model::spec_merge_lines(f.covered_lines@, f.missed_lines@),
            ),
        )
    } else {
        Seq::empty()
    }
}

/// The missed-range text of one row with links into `sha`'s blob, empty
/// when its line lists are not strictly sorted.
pub open spec fn spec_missed_links(f: crate::model::FileDiffCoverage, sha: Seq<char>) -> Seq<
    char,
> {
    if sorted_strict(f.covered_lines@) && sorted_strict(f.missed_lines@) {
        spec_join_links(
            spec_coalesce(
                f.missed_lines@,
                crate::model::spec_merge_lines(f.covered_lines@, f.missed_lines@),
            ),
            sha,
            f.path@,
        )
    } else {
        Seq::empty()
    }
}

/// One file's line of the text breakdown.
pub open spec fn spec_text_file_line(f: crate::model::FileDiffCoverage, rate: Rate) -> Seq<
    char,
> {
    ("  ")@ + f.path@ + ("  ")@ + crate::text::spec_u64_string(rate.covered as nat) + ("/")@
        + crate::text::spec_u64_string(rate.total as nat) + (" (")@ + spec_pct_string(
        spec_rate_pct(rate),
    ) + ("%)  missed: ")@ + spec_missed_ranges(f) + ("
")@
}

/// The text breakdown's lines, one per listed row, in list order.
pub open spec fn spec_text_lines(
    files: Seq<crate::model::FileDiffCoverage>,
    misses: Seq<(usize, Rate)>,
) -> Seq<char>
    decreases misses.len(),
{
    if misses.len() == 0 {
        Seq::empty()
    } else {
        spec_text_lines(files, misses.drop_last()) + (if (misses.last().0 as int) < files.len() {
            spec_text_file_line(files[misses.last().0 as int], misses.last().1)
        } else {
            Seq::empty()
        })
    }
}

/// The text report's per-file breakdown: a blank line and one line per
/// file with missed lines, in rising-rate order; nothing when no file
/// has missed lines.
pub open spec fn spec_text_breakdown(r: &DiffCoverageReport) -> Seq<char> {
    let ms = spec_misses_list(r.files@);
    if ms.len() == 0 {
        Seq::empty()
    } else {
        ("
")@ + spec_text_lines(r.files@, ms)
    }
}

/// What the text rendering promises: the two fixed lines for an empty or
/// non-instrumentable diff; otherwise exactly the headline, the per-file
/// breakdown of the files with missed lines in rising-rate order, and the
/// closing project rate.
pub open spec fn text_render_ok(r: &DiffCoverageReport, out: Seq<char>) -> bool {
    if r.diff_files == 0 {
        out == ("No added lines found in diff.\n")@
    } else if r.total_instrumentable == 0 {
        out == crate::text::spec_u64_string(r.diff_lines as nat) + (" lines added across ")@
            + crate::text::spec_u64_string(r.diff_files as nat) + (
        " files - none are instrumentable.\n")@
    } else {
        out == spec_text_header(r) + spec_text_breakdown(r) + spec_text_tail(r)
    }
}

/// The markdown report's headline block: heading, rate, counts and the
/// optional short revision.
pub open spec fn spec_md_sha_piece(sha: Option<String>) -> Seq<char> {
    match sha {
        Some(s) => (" (")@ + spec_short_sha(s@) + (")")@,
        None => Seq::<char>::empty(),
    }
}

pub open spec fn spec_md_header(r: &DiffCoverageReport) -> Seq<char> {
    ("### Diff Coverage: ")@ + spec_pct_string(
        spec_capped_pct(r.total_covered as int, r.total_instrumentable as int),
    ) + ("%\n\n")@ + ("**")@ + crate::text::spec_u64_string(r.total_covered as nat) + (
    "** of **")@ + crate::text::spec_u64_string(r.total_instrumentable as nat) + (
    "** diff lines covered")@ + spec_md_sha_piece(r.sha) + ("\n")@
}

/// The markdown report's closing project-rate line, for a known rate.
pub open spec fn spec_md_tail_some(rt: Rate) -> Seq<char> {
    if rt.covered <= rt.total {
        ("<sub>Full project coverage: **")@ + spec_pct_string(
            spec_pct_tenths(rt.covered as int, rt.total as int),
        ) + ("%**</sub>\n")@
    } else {
        Seq::empty()
    }
}

/// The markdown report's closing project-rate line, when one is known.
pub open spec fn spec_md_tail(r: &DiffCoverageReport) -> Seq<char> {
    match r.total_rate {
        Some(rt) => spec_md_tail_some(rt),
        None => Seq::empty(),
    }
}


/// One file's row of the markdown table.
pub open spec fn spec_md_table_row(
    f: crate::model::FileDiffCoverage,
    rate: Rate,
    rates: Seq<(String, Rate)>,
) -> Seq<char> {
    ("| `")@ + f.path@ + ("` | ")@ + crate::text::spec_u64_string(f.missed_lines@.len())
        + (" | ")@ + crate::text::spec_u64_string((spec_rate_pct(rate) / 10) as nat) + ("% | ")@
        + crate::text::spec_u64_string(
        (spec_rate_pct(spec_file_rate_of(rates, f.path@)) / 10) as nat,
    ) + ("% |\n")@
}

/// The markdown table's rows, one per listed row, in list order.
pub open spec fn spec_md_rows(
    files: Seq<crate::model::FileDiffCoverage>,
    rates: Seq<(String, Rate)>,
    misses: Seq<(usize, Rate)>,
) -> Seq<char>
    decreases misses.len(),
{
    if misses.len() == 0 {
        Seq::empty()
    } else {
        spec_md_rows(files, rates, misses.drop_last()) + (if (misses.last().0 as int)
            < files.len() {
            spec_md_table_row(files[misses.last().0 as int], misses.last().1, rates)
        } else {
            Seq::empty()
        })
    }
}

/// One file's entry of the markdown details block.
pub open spec fn spec_md_detail(f: crate::model::FileDiffCoverage, sha: Option<String>) -> Seq<
    char,
> {
    ("**`")@ + f.path@ + ("`**: ")@ + (match sha {
        Some(s) => spec_missed_links(f, s@),
        None => spec_missed_ranges(f),
    }) + ("\n\n")@
}

/// The markdown details block's entries, one per listed row, in list
/// order.
pub open spec fn spec_md_details(
    files: Seq<crate::model::FileDiffCoverage>,
    sha: Option<String>,
    misses: Seq<(usize, Rate)>,
) -> Seq<char>
    decreases misses.len(),
{
    if misses.len() == 0 {
        Seq::empty()
    } else {
        spec_md_details(files, sha, misses.drop_last()) + (if (misses.last().0 as int)
            < files.len() {
            spec_md_detail(files[misses.last().0 as int], sha)
        } else {
            Seq::empty()
        })
    }
}

/// The markdown report's body: the all-covered line, or the file table
/// and details block over the files with missed lines, in rising-rate
/// order.
pub open spec fn spec_md_body(r: &DiffCoverageReport) -> Seq<char> {
    let ms = spec_misses_list(r.files@);
    if ms.len() == 0 {
        ("\nAll diff lines are covered!\n")@
    } else {
        ("\n| File | Missed | Diff | Total | \n")@ + ("|:-----|-------:|-----:|------:|\n")@
            + spec_md_rows(r.files@, r.file_rates@, ms) + (
        "\n<details>\n<summary>Missed lines</summary>\n\n")@ + spec_md_details(
            r.files@,
            r.sha,
            ms,
        ) + ("</details>\n")@
    }
}

/// What the markdown rendering promises: exactly the headline block, the
/// file table and details block over the files with missed lines in
/// rising-rate order (or the all-covered line), and the closing project
/// rate.
pub open spec fn md_render_ok(r: &DiffCoverageReport, out: Seq<char>) -> bool {
    out == spec_md_header(r) + spec_md_body(r) + ("\n")@ + spec_md_tail(r)
}

/// Aggregated diff coverage data, ready to be rendered.
#[derive(Debug)]
pub struct DiffCoverageReport {
    /// Number of files the diff added lines to.
    pub diff_files: usize,
    /// Total number of added lines across all files.
    pub diff_lines: usize,
    /// Per-file detail, one row per file with an instrumentable added line.
    pub files: Vec<crate::model::FileDiffCoverage>,
    /// Total instrumentable diff lines that are covered.
    pub total_covered: usize,
    /// Total instrumentable diff lines.
    pub total_instrumentable: usize,
    /// Overall project line coverage, when available.
    pub total_rate: Option<Rate>,
    /// Per-file total line coverage.
    pub file_rates: Vec<(String, Rate)>,
    /// Commit revision to display.
    pub sha: Option<String>,
}

/// Trait for rendering diff coverage reports.
pub trait ReportFormatter {
    /// What this formatter's rendering promises of its output.
    spec fn render_ok(&self, report: &DiffCoverageReport, out: Seq<char>) -> bool;

    /// Render the report to a string.
    fn format(&self, report: &DiffCoverageReport) -> (r: String)
        ensures
            self.render_ok(report, r@),
    ;
}

/// Plain text rendering.
pub struct TextFormatter;

/// Markdown rendering.
pub struct MarkdownFormatter;

impl DiffCoverageReport {
    /// Render with a specific formatter.
    pub fn format<F: ReportFormatter>(&self, formatter: &F) -> (r: String)
        ensures
            formatter.render_ok(self, r@),
    {
        formatter.format(self)
    }
}

/// Output style for the diff-coverage rendering.
#[derive(Debug, Clone, Copy, PartialEq, Eq, Structural)]
pub enum Style {
    Text,
    Markdown,
}

impl Style {
    /// Render the report in this style.
    pub fn render(&self, report: &DiffCoverageReport) -> (r: String)
        ensures
            *self is Text ==> text_render_ok(report, r@),
            *self is Markdown ==> md_render_ok(report, r@),
    {
        match self {
            Style::Text => TextFormatter.format(report),
            Style::Markdown => MarkdownFormatter.format(report),
        }
    }
}

/// The product of two 64-bit counts.
fn mul64(a: u64, b: u64) -> (r: u128)
    ensures
        r == a as int * b as int,
{
    proof {
        assert(a as int * b as int <= 0xffff_ffff_ffff_ffff * 0xffff_ffff_ffff_ffff)
            by (nonlinear_arith)
            requires
                a <= 0xffff_ffff_ffff_ffffu64,
                b <= 0xffff_ffff_ffff_ffffu64,
        ;
    }
    (a as u128) * (b as u128)
}

/// Tenths of a percent of a rate, the covered count clamped to the total.
pub open spec fn spec_rate_pct(rate: Rate) -> int {
    spec_pct_tenths(
        if rate.covered > rate.total {
            rate.total as int
        } else {
            rate.covered as int
        },
        rate.total as int,
    )
}

/// Tenths of a percent of a rate, the covered count clamped to the total.
fn pct_of(rate: Rate) -> (r: u64)
    ensures
        r == spec_rate_pct(rate),
        r <= 1000,
{
    let c = if rate.covered > rate.total {
        rate.total
    } else {
        rate.covered
    };
    percent_tenths(c, rate.total)
}


/// The displayed rate of one diff row: covered over covered-plus-missed,
/// saturated to `u64` and clamped.
pub open spec fn spec_rate_of(f: crate::model::FileDiffCoverage) -> Rate {
    let c = f.covered_lines@.len() as int;
    let m = f.missed_lines@.len() as int;
    let total: u64 = if c + m > u64::MAX {
        u64::MAX
    } else {
        (c + m) as u64
    };
    let covered: u64 = if c > total {
        total
    } else {
        c as u64
    };
    Rate { covered, total }
}

/// Whether rate `a` orders strictly after rate `b`, by exact
/// cross-multiplication.
pub open spec fn spec_rate_after(a: Rate, b: Rate) -> bool {
    a.covered * b.total > b.covered * a.total
}

/// A row inserted in rising-rate order, after equals.
pub open spec fn spec_insert_miss(list: Seq<(usize, Rate)>, item: (usize, Rate)) -> Seq<
    (usize, Rate),
>
    decreases list.len(),
{
    if list.len() == 0 {
        seq![item]
    } else if spec_rate_after(list[0].1, item.1) {
        seq![item] + list
    } else {
        seq![list[0]] + spec_insert_miss(list.drop_first(), item)
    }
}

/// The rows with missed lines, as `(index, rate)` pairs in rising-rate
/// order, equals kept in row order.
pub open spec fn spec_misses_list(files: Seq<crate::model::FileDiffCoverage>) -> Seq<
    (usize, Rate),
>
    decreases files.len(),
{
    if files.len() == 0 {
        Seq::empty()
    } else {
        let prev = spec_misses_list(files.drop_last());
        if files.last().missed_lines@.len() > 0 {
            spec_insert_miss(prev, ((files.len() - 1) as usize, spec_rate_of(files.last())))
        } else {
            prev
        }
    }
}

/// Whether the listed rates rise from row to row.
pub open spec fn misses_sorted(list: Seq<(usize, Rate)>) -> bool {
    forall|k: int|
        0 <= k && k + 1 < list.len() ==> !spec_rate_after((#[trigger] list[k]).1, list[k + 1].1)
}

/// Where `spec_insert_miss` puts the new row.
proof fn lemma_insert_miss_at(list: Seq<(usize, Rate)>, item: (usize, Rate), j: int)
    requires
        0 <= j <= list.len(),
        forall|k: int| 0 <= k < j ==> !spec_rate_after((#[trigger] list[k]).1, item.1),
    ensures
        j < list.len() && spec_rate_after(list[j].1, item.1) ==> spec_insert_miss(list, item)
            =~= list.subrange(0, j) + seq![item] + list.subrange(j, list.len() as int),
        j == list.len() ==> spec_insert_miss(list, item) =~= list.push(item),
    decreases list.len(),
{
    if list.len() == 0 {
    } else if spec_rate_after(list[0].1, item.1) {
        assert(j == 0);
        assert(list.subrange(0, 0) =~= Seq::<(usize, Rate)>::empty());
        assert(list.subrange(0, list.len() as int) =~= list);
    } else {
        if j > 0 {
            let rest = list.drop_first();
            assert(forall|k: int| 0 <= k < rest.len() ==> #[trigger] rest[k] == list[k + 1]);
            lemma_insert_miss_at(rest, item, j - 1);
            if j < list.len() {
                assert(seq![list[0]] + (rest.subrange(0, j - 1) + seq![item] + rest.subrange(
                    j - 1,
                    rest.len() as int,
                )) =~= list.subrange(0, j) + seq![item] + list.subrange(j, list.len() as int));
            } else {
                assert(seq![list[0]] + rest.push(item) =~= list.push(item));
            }
        }
    }
}

/// Inserting in rising-rate order keeps the rows in rising-rate order.
proof fn lemma_insert_miss_sorted(list: Seq<(usize, Rate)>, item: (usize, Rate))
    requires
        misses_sorted(list),
    ensures
        misses_sorted(spec_insert_miss(list, item)),
    decreases list.len(),
{
    if list.len() == 0 {
        assert(spec_insert_miss(list, item) =~= seq![item]);
    } else if spec_rate_after(list[0].1, item.1) {
        let r = seq![item] + list;
        assert forall|k: int| 0 <= k && k + 1 < r.len() implies !spec_rate_after(
            (#[trigger] r[k]).1,
            r[k + 1].1,
        ) by {
            if k == 0 {
                assert(r[0] == item);
                assert(r[1] == list[0]);
            } else {
                assert(r[k] == list[k - 1]);
                assert(r[k + 1] == list[k]);
                assert(!spec_rate_after(list[(k - 1)].1, list[(k - 1) + 1].1));
            }
        }
    } else {
        let rest = list.drop_first();
        assert(forall|k: int| 0 <= k < rest.len() ==> #[trigger] rest[k] == list[k + 1]);
        assert(misses_sorted(rest));
        lemma_insert_miss_sorted(rest, item);
        let ri = spec_insert_miss(rest, item);
        let r = seq![list[0]] + ri;
        assert forall|k: int| 0 <= k && k + 1 < r.len() implies !spec_rate_after(
            (#[trigger] r[k]).1,
            r[k + 1].1,
        ) by {
            assert(r[0] == list[0]);
            if k == 0 {
                if rest.len() == 0 {
                    assert(ri =~= seq![item]);
                    assert(r[1] == ri[0]);
                    assert(ri[0] == item);
                } else if spec_rate_after(rest[0].1, item.1) {
                    assert(ri =~= seq![item] + rest);
                    assert(r[1] == ri[0]);
                    assert(ri[0] == item);
                } else {
                    assert(ri =~= seq![rest[0]] + spec_insert_miss(rest.drop_first(), item));
                    assert(r[1] == ri[0]);
                    assert(ri[0] == rest[0]);
                    assert(!spec_rate_after(list[0].1, list[1].1));
                }
            } else {
                assert(r[k] == ri[k - 1]);
                assert(r[k + 1] == ri[k]);
                assert(!spec_rate_after(ri[(k - 1)].1, ri[(k - 1) + 1].1));
            }
        }
    }
}

/// Every run of `spec_misses_list` rises in rate.
proof fn lemma_misses_list_sorted(files: Seq<crate::model::FileDiffCoverage>)
    ensures
        misses_sorted(spec_misses_list(files)),
    decreases files.len(),
{
    if files.len() == 0 {
    } else {
        lemma_misses_list_sorted(files.drop_last());
        if files.last().missed_lines@.len() > 0 {
            lemma_insert_miss_sorted(
                spec_misses_list(files.drop_last()),
                ((files.len() - 1) as usize, spec_rate_of(files.last())),
            );
        }
    }
}

/// The per-file rows that have missed lines, ordered by rising file rate
/// (covered over total, compared exactly by cross-multiplication).
fn files_with_misses(files: &Vec<crate::model::FileDiffCoverage>) -> (r: Vec<(usize, Rate)>)
    ensures
        r@ == spec_misses_list(files@),
        misses_sorted(r@),
        forall|k: int|
            0 <= k < r@.len() ==> 0 <= (#[trigger] r@[k]).0 < files@.len(),
        (r@.len() == 0) == spec_no_misses(files@),
{
    let mut out: Vec<(usize, Rate)> = Vec::new();
    let n = files.len();
    let mut i: usize = 0;
    proof {
        assert(files@.take(0) =~= Seq::<crate::model::FileDiffCoverage>::empty());
        assert(out@ =~= spec_misses_list(files@.take(0)));
    }
    while i < n
        invariant
            n == files@.len(),
            0 <= i <= n,
            out@ == spec_misses_list(files@.take(i as int)),
            forall|k: int| 0 <= k < out@.len() ==> 0 <= (#[trigger] out@[k]).0 < files@.len(),
            (out@.len() == 0) == (forall|q: int|
                0 <= q < i ==> (#[trigger] files@[q]).missed_lines@.len() == 0),
        decreases n - i,
    {
        proof {
            assert(files@.take(i + 1).drop_last() =~= files@.take(i as int));
            assert(files@.take(i + 1).last() == files@[i as int]);
        }
        if files[i].missed_lines.len() > 0 {
            let covered = files[i].covered_lines.len();
            let missed = files[i].missed_lines.len();
            let total128: u128 = covered as u128 + missed as u128;
            let total: u64 = if total128 > 0xffff_ffff_ffff_ffffu128 {
                u64::MAX
            } else {
                total128 as u64
            };
            let covered64: u64 = if covered as u128 > total as u128 {
                total
            } else {
                covered as u64
            };
            let rate = Rate { covered: covered64, total };
            proof {
                assert(rate == spec_rate_of(files@[i as int]));
            }
            let ghost orig = out@;
            // Insert in rising rate order: a/b < c/d iff a*d < c*b.
            let m = out.len();
            let mut j: usize = 0;
            let mut pos: usize = m;
            let mut found: bool = false;
            while j < m && !found
                invariant
                    m == out@.len(),
                    out@ == orig,
                    0 <= j <= m,
                    found ==> pos < m && spec_rate_after(orig[pos as int].1, rate) && (forall|
                        k: int,
                    | 0 <= k < pos ==> !spec_rate_after((#[trigger] orig[k]).1, rate)),
                    !found ==> pos == m && (forall|k: int|
                        0 <= k < j ==> !spec_rate_after((#[trigger] orig[k]).1, rate)),
                decreases m - j + (if found {
                    0int
                } else {
                    1int
                }),
            {
                let other = out[j].1;
                let lhs: u128 = mul64(other.covered, rate.total);
                let rhs: u128 = mul64(rate.covered, other.total);
                if lhs > rhs {
                    pos = j;
                    found = true;
                } else {
                    j += 1;
                }
            }
            if found {
                out.insert(pos, (i, rate));
                proof {
                    lemma_insert_miss_at(orig, (i, rate), pos as int);
                    assert(out@ =~= orig.subrange(0, pos as int) + seq![(i, rate)]
                        + orig.subrange(pos as int, orig.len() as int));
                    assert(out@ == spec_insert_miss(orig, (i, rate)));
                }
            } else {
                out.push((i, rate));
                proof {
                    lemma_insert_miss_at(orig, (i, rate), m as int);
                    assert(out@ == spec_insert_miss(orig, (i, rate)));
                }
            }
            proof {
                assert forall|k: int| 0 <= k < out@.len() implies 0 <= (#[trigger] out@[
                    k
                ]).0 < files@.len() by {
                    if k < pos {
                        assert(out@[k] == orig[k]);
                    } else if k == pos {
                        assert(out@[k] == (i, rate));
                    } else {
                        assert(out@[k] == orig[k - 1]);
                    }
                }
            }
        }
        i += 1;
    }
    proof {
        assert(files@.take(n as int) =~= files@);
        lemma_misses_list_sorted(files@);
    }
    out
}


/// One text breakdown line rendered.
fn text_line_string(f: &crate::model::FileDiffCoverage, rate: Rate) -> (r: String)
    ensures
        r@ == spec_text_file_line(*f, rate),
{
    let mut line = String::new();
    line.append("  ");
    line.append(f.path.as_str());
    line.append("  ");
    line.append(crate::text::u64_to_string(rate.covered).as_str());
    line.append("/");
    line.append(crate::text::u64_to_string(rate.total).as_str());
    line.append(" (");
    line.append(format_pct(pct_of(rate)).as_str());
    line.append("%)  missed: ");
    if sorted_strict_check(&f.covered_lines) && sorted_strict_check(&f.missed_lines) {
        let inst = f.all_instrumentable();
        let ranges = format_line_ranges(f.missed_lines.as_slice(), inst.as_slice());
        line.append(ranges.as_str());
    }
    line.append("\n");
    proof {
        assert(line@ =~= spec_text_file_line(*f, rate));
    }
    line
}

impl ReportFormatter for TextFormatter {
    /// The text rendering's promise.
    open spec fn render_ok(&self, report: &DiffCoverageReport, out: Seq<char>) -> bool {
        text_render_ok(report, out)
    }

    /// Render as plain text: a summary line, a per-file breakdown of the
    /// files with missed ranges ordered by rising file rate, and the
    /// overall project rate when known. An empty diff and a diff without
    /// instrumentable lines each get a single fixed line.
    fn format(&self, report: &DiffCoverageReport) -> String {
        let mut out = String::new();
        if report.diff_files == 0 {
            out.append("No added lines found in diff.\n");
            proof {
                assert(out@ =~= ("No added lines found in diff.\n")@);
            }
            return out;
        }
        if report.total_instrumentable == 0 {
            out.append(crate::text::u64_to_string(report.diff_lines as u64).as_str());
            out.append(" lines added across ");
            out.append(crate::text::u64_to_string(report.diff_files as u64).as_str());
            out.append(" files - none are instrumentable.\n");
            proof {
                assert(out@ =~= crate::text::spec_u64_string(report.diff_lines as nat) + (
                " lines added across ")@ + crate::text::spec_u64_string(report.diff_files as nat)
                    + (" files - none are instrumentable.\n")@);
            }
            return out;
        }
        let covered = report.total_covered as u64;
        let total = report.total_instrumentable as u64;
        let covered_capped: u64 = if covered > total {
            total
        } else {
            covered
        };
        out.append("Diff coverage: ");
        out.append(format_pct(percent_tenths(covered_capped, total)).as_str());
        out.append("% (");
        out.append(crate::text::u64_to_string(covered).as_str());
        out.append("/");
        out.append(crate::text::u64_to_string(total).as_str());
        out.append(" lines covered)\n");
        let ghost hdr = spec_text_header(report);
        proof {
            assert(out@ =~= hdr);
        }
        let misses = files_with_misses(&report.files);
        if misses.len() > 0 {
            out.append("\n");
            let n = misses.len();
            let mut i: usize = 0;
            proof {
                assert(misses@.take(0) =~= Seq::<(usize, Rate)>::empty());
                assert(out@ =~= hdr + ("\n")@ + spec_text_lines(
                    report.files@,
                    misses@.take(0),
                ));
            }
            while i < n
                invariant
                    n == misses@.len(),
                    0 <= i <= n,
                    hdr == spec_text_header(report),
                    misses@ == spec_misses_list(report.files@),
                    out@ == hdr + ("\n")@ + spec_text_lines(
                        report.files@,
                        misses@.take(i as int),
                    ),
                    forall|k: int|
                        0 <= k < misses@.len() ==> 0 <= (#[trigger] misses@[k]).0
                            < report.files@.len(),
                decreases n - i,
            {
                proof {
                    assert(misses@.take(i + 1).drop_last() =~= misses@.take(i as int));
                    assert(misses@.take(i + 1).last() == misses@[i as int]);
                }
                let ghost out0 = out@;
                let idx = misses[i].0;
                let f = &report.files[idx];
                let rate = misses[i].1;
                let line = text_line_string(f, rate);
                out.append(line.as_str());
                proof {
                    assert(out@ =~= out0 + spec_text_file_line(
                        report.files@[idx as int],
                        rate,
                    ));
                    assert(out@ =~= hdr + ("\n")@ + spec_text_lines(
                        report.files@,
                        misses@.take(i + 1),
                    ));
                }
                i += 1;
            }
            proof {
                assert(misses@.take(n as int) =~= misses@);
            }
        }
        let ghost before_tail = out@;
        match &report.total_rate {
            Some(rate) => {
                if rate.covered <= rate.total {
                    out.append("\nFull project coverage: ");
                    out.append(format_pct(percent_tenths(rate.covered, rate.total)).as_str());
                    out.append("%\n");
                }
            },
            None => {},
        }
        proof {
            assert(before_tail =~= hdr + spec_text_breakdown(report));
            assert(out@ =~= before_tail + spec_text_tail(report));
            assert(out@ =~= hdr + spec_text_breakdown(report) + spec_text_tail(report));
            assert(report.diff_files != 0);
            assert(report.total_instrumentable != 0);
            assert(text_render_ok(report, out@));
        }
        out
    }
}

/// Whether the list is strictly increasing.
pub fn sorted_strict_check(v: &Vec<u32>) -> (r: bool)
    ensures
        r == sorted_strict(v@),
{
    let n = v.len();
    if n == 0 {
        return true;
    }
    let mut i: usize = 1;
    while i < n
        invariant
            n == v@.len(),
            1 <= i <= n,
            forall|a: int, b: int| 0 <= a < b < i ==> v@[a] < v@[b],
        decreases n - i,
    {
        if v[i - 1] >= v[i] {
            assert(!sorted_strict(v@));
            return false;
        }
        proof {
            assert(forall|a: int| 0 <= a < i - 1 ==> #[trigger] v@[a] < v@[i - 1]);
        }
        i += 1;
    }
    true
}


/// One markdown table row rendered.
fn md_row_string(
    f: &crate::model::FileDiffCoverage,
    rate: Rate,
    rates: &Vec<(String, Rate)>,
) -> (r: String)
    ensures
        r@ == spec_md_table_row(*f, rate, rates@),
{
    let mut row = String::new();
    row.append("| `");
    row.append(f.path.as_str());
    row.append("` | ");
    row.append(crate::text::u64_to_string(f.missed_lines.len() as u64).as_str());
    row.append(" | ");
    row.append(crate::text::u64_to_string(pct_of(rate) / 10).as_str());
    row.append("% | ");
    let total_rate = file_rate_of(rates, f.path.as_str());
    row.append(crate::text::u64_to_string(pct_of(total_rate) / 10).as_str());
    row.append("% |\n");
    proof {
        assert(row@ =~= spec_md_table_row(*f, rate, rates@));
    }
    row
}

/// One markdown details entry rendered.
fn md_detail_string(f: &crate::model::FileDiffCoverage, sha: &Option<String>) -> (r: String)
    ensures
        r@ == spec_md_detail(*f, *sha),
{
    let mut d = String::new();
    d.append("**`");
    d.append(f.path.as_str());
    d.append("`**: ");
    if sorted_strict_check(&f.covered_lines) && sorted_strict_check(&f.missed_lines) {
        let inst = f.all_instrumentable();
        let ranges = match sha {
            Some(s) => format_line_ranges_linked(
                f.missed_lines.as_slice(),
                inst.as_slice(),
                s.as_str(),
                f.path.as_str(),
            ),
            None => format_line_ranges(f.missed_lines.as_slice(), inst.as_slice()),
        };
        d.append(ranges.as_str());
    }
    d.append("\n\n");
    proof {
        assert(d@ =~= spec_md_detail(*f, *sha));
    }
    d
}

impl ReportFormatter for MarkdownFormatter {
    /// The markdown rendering's promise.
    open spec fn render_ok(&self, report: &DiffCoverageReport, out: Seq<char>) -> bool {
        md_render_ok(report, out)
    }

    /// Render as markdown: a level-3 heading with the diff rate, the
    /// covered-of-total line with an optional short (7-character) commit
    /// revision, a table of files with missed lines ordered by rising
    /// file rate, a details block with the missed ranges (hyperlinked
    /// when a revision is known), and the overall project rate.
    #[verifier::rlimit(100)]
    fn format(&self, report: &DiffCoverageReport) -> String {
        let mut md = String::new();
        let covered = report.total_covered as u64;
        let total = report.total_instrumentable as u64;
        let covered_capped: u64 = if covered > total {
            total
        } else {
            covered
        };
        md.append("### Diff Coverage: ");
        md.append(format_pct(percent_tenths(covered_capped, total)).as_str());
        md.append("%\n\n");
        md.append("**");
        md.append(crate::text::u64_to_string(covered).as_str());
        md.append("** of **");
        md.append(crate::text::u64_to_string(total).as_str());
        md.append("** diff lines covered");
        match &report.sha {
            Some(sha) => {
                md.append(" (");
                let short = short_sha(sha);
                md.append(short.as_str());
                md.append(")");
            },
            None => {},
        }
        md.append("\n");
        let ghost hdr = spec_md_header(report);
        proof {
            assert(md@ =~= hdr);
        }
        let misses = files_with_misses(&report.files);
        if misses.len() == 0 {
            md.append("\nAll diff lines are covered!\n");
            proof {
                assert(md@ =~= hdr + spec_md_body(report));
            }
        } else {
            md.append("\n| File | Missed | Diff | Total | \n");
            md.append("|:-----|-------:|-----:|------:|\n");
            let ghost pre_rows = md@;
            let n = misses.len();
            let mut i: usize = 0;
            proof {
                assert(misses@.take(0) =~= Seq::<(usize, Rate)>::empty());
                assert(md@ =~= pre_rows + spec_md_rows(
                    report.files@,
                    report.file_rates@,
                    misses@.take(0),
                ));
            }
            while i < n
                invariant
                    n == misses@.len(),
                    0 <= i <= n,
                    misses@ == spec_misses_list(report.files@),
                    md@ == pre_rows + spec_md_rows(
                        report.files@,
                        report.file_rates@,
                        misses@.take(i as int),
                    ),
                    forall|k: int|
                        0 <= k < misses@.len() ==> 0 <= (#[trigger] misses@[k]).0
                            < report.files@.len(),
                decreases n - i,
            {
                proof {
                    assert(misses@.take(i + 1).drop_last() =~= misses@.take(i as int));
                    assert(misses@.take(i + 1).last() == misses@[i as int]);
                }
                let ghost md0 = md@;
                let idx = misses[i].0;
                let f = &report.files[idx];
                let rate = misses[i].1;
                let row = md_row_string(f, rate, &report.file_rates);
                md.append(row.as_str());
                proof {
                    assert(md@ =~= md0 + spec_md_table_row(
                        report.files@[idx as int],
                        rate,
                        report.file_rates@,
                    ));
                    assert(md@ =~= pre_rows + spec_md_rows(
                        report.files@,
                        report.file_rates@,
                        misses@.take(i + 1),
                    ));
                }
                i += 1;
            }
            proof {
                assert(misses@.take(n as int) =~= misses@);
            }
            md.append("\n<details>\n<summary>Missed lines</summary>\n\n");
            let ghost pre_details = md@;
            let mut i: usize = 0;
            proof {
                assert(misses@.take(0) =~= Seq::<(usize, Rate)>::empty());
                assert(md@ =~= pre_details + spec_md_details(
                    report.files@,
                    report.sha,
                    misses@.take(0),
                ));
            }
            while i < n
                invariant
                    n == misses@.len(),
                    0 <= i <= n,
                    misses@ == spec_misses_list(report.files@),
                    md@ == pre_details + spec_md_details(
                        report.files@,
                        report.sha,
                        misses@.take(i as int),
                    ),
                    forall|k: int|
                        0 <= k < misses@.len() ==> 0 <= (#[trigger] misses@[k]).0
                            < report.files@.len(),
                decreases n - i,
            {
                proof {
                    assert(misses@.take(i + 1).drop_last() =~= misses@.take(i as int));
                    assert(misses@.take(i + 1).last() == misses@[i as int]);
                }
                let ghost md0 = md@;
                let idx = misses[i].0;
                let f = &report.files[idx];
                let entry = md_detail_string(f, &report.sha);
                md.append(entry.as_str());
                proof {
                    assert(md@ =~= md0 + spec_md_detail(report.files@[idx as int], report.sha));
                    assert(md@ =~= pre_details + spec_md_details(
                        report.files@,
                        report.sha,
                        misses@.take(i + 1),
                    ));
                }
                i += 1;
            }
            proof {
                assert(misses@.take(n as int) =~= misses@);
            }
            md.append("</details>\n");
            proof {
                assert(md@ =~= hdr + spec_md_body(report));
            }
        }
        md.append("\n");
        let ghost before_tail = md@;
        match &report.total_rate {
            Some(rate) => {
                if rate.covered <= rate.total {
                    md.append("<sub>Full project coverage: **");
                    md.append(format_pct(percent_tenths(rate.covered, rate.total)).as_str());
                    md.append("%**</sub>\n");
                }
            },
            None => {},
        }
        proof {
            assert(before_tail =~= hdr + spec_md_body(report) + ("\n")@);
            assert(md@ =~= before_tail + spec_md_tail(report));
            assert(md@ =~= hdr + spec_md_body(report) + ("\n")@ + spec_md_tail(report));
            assert(md_render_ok(report, md@));
        }
        md
    }
}

/// The first seven characters of a revision, or all of a shorter one.
fn short_sha(sha: &String) -> (r: String)
    ensures
        r@ == spec_short_sha(sha@),
{
    let n = sha.as_str().unicode_len();
    if n > 7 {
        sha.as_str().substring_char(0, 7).to_owned()
    } else {
        crate::diff::clone_string(sha)
    }
}

/// The recorded total rate for `path`, or a zero rate.
pub open spec fn spec_file_rate_of(rates: Seq<(String, Rate)>, path: Seq<char>) -> Rate
    decreases rates.len(),
{
    if rates.len() == 0 {
        Rate { covered: 0, total: 0 }
    } else if rates[0].0@ == path {
        rates[0].1
    } else {
        spec_file_rate_of(rates.drop_first(), path)
    }
}

/// The recorded total rate for `path`, or a zero rate.
fn file_rate_of(rates: &Vec<(String, Rate)>, path: &str) -> (r: Rate)
    ensures
        r == spec_file_rate_of(rates@, path@),
{
    let n = rates.len();
    let mut i: usize = 0;
    proof {
        assert(rates@.skip(0) =~= rates@);
    }
    while i < n
        invariant
            n == rates@.len(),
            0 <= i <= n,
            spec_file_rate_of(rates@, path@) == spec_file_rate_of(rates@.skip(i as int), path@),
        decreases n - i,
    {
        proof {
            assert(rates@.skip(i as int)[0] == rates@[i as int]);
            assert(rates@.skip(i as int).drop_first() =~= rates@.skip(i + 1));
        }
        if crate::text::str_eq(rates[i].0.as_str(), path) {
            return rates[i].1;
        }
        i += 1;
    }
    proof {
        assert(rates@.skip(n as int) =~= Seq::<(String, Rate)>::empty());
    }
    Rate { covered: 0, total: 0 }
}


/// The message of one annotation range.
pub open spec fn spec_annotation_message(s: u32, e: u32) -> Seq<char> {
    if s == e {
        ("Line ")@ + crate::text::spec_u64_string(s as nat) + (" not covered by tests")@
    } else {
        ("Lines ")@ + crate::text::spec_u64_string(s as nat) + ("-")@
            + crate::text::spec_u64_string(e as nat) + (" not covered by tests")@
    }
}

/// A human-readable message for a missed line range.
pub fn annotation_message(start: u32, end: u32) -> (r: String)
    ensures
        r@ == spec_annotation_message(start, end),
{
    if start == end {
        let mut m = ("Line ").to_owned();
        m.append(crate::text::u64_to_string(start as u64).as_str());
        m.append(" not covered by tests");
        m
    } else {
        let mut m = ("Lines ").to_owned();
        m.append(crate::text::u64_to_string(start as u64).as_str());
        m.append("-");
        m.append(crate::text::u64_to_string(end as u64).as_str());
        m.append(" not covered by tests");
        m
    }
}

/// The annotations one result row yields: one per coalesced missed
/// range, in range order; none when the row has no missed lines or its
/// line lists are not sorted.
pub open spec fn spec_file_annotations(f: &crate::model::FileDiffCoverage) -> Seq<
    crate::model::AnnotationView,
> {
    if f.missed_lines@.len() > 0 && sorted_strict(f.covered_lines@) && sorted_strict(
        f.missed_lines@,
    ) {
        let rs = spec_coalesce(
            f.missed_lines@,
            crate::model::spec_merge_lines(f.covered_lines@, f.missed_lines@),
        );
        Seq::new(
            rs.len(),
            |k: int|
                crate::model::AnnotationView {
                    path: f.path@,
                    start_line: rs[k].0,
                    end_line: rs[k].1,
                    message: spec_annotation_message(rs[k].0, rs[k].1),
                },
        )
    } else {
        Seq::empty()
    }
}

/// The annotations a whole report yields, file by file in report order.
pub open spec fn spec_build_annotations(files: Seq<crate::model::FileDiffCoverage>) -> Seq<
    crate::model::AnnotationView,
>
    decreases files.len(),
{
    if files.len() == 0 {
        Seq::empty()
    } else {
        spec_build_annotations(files.drop_last()) + spec_file_annotations(&files.last())
    }
}

/// Build review-platform annotations from a diff coverage report:
/// exactly one annotation per coalesced missed range of each file with
/// missed lines, in report order, each carrying that range's message.
pub fn build_annotations(report: &DiffCoverageReport) -> (r: Vec<crate::model::Annotation>)
    ensures
        r.deep_view() == spec_build_annotations(report.files@),
        forall|k: int|
            0 <= k < r@.len() ==> {
                let a = #[trigger] r@[k];
                &&& a.start_line <= a.end_line
                &&& a.message@ == spec_annotation_message(a.start_line, a.end_line)
                &&& exists|e: int|
                    0 <= e < report.files@.len() && (#[trigger] report.files@[e]).path@ == a.path@
            },
{
    let mut out: Vec<crate::model::Annotation> = Vec::new();
    let n = report.files.len();
    let mut i: usize = 0;
    proof {
        assert(out.deep_view() =~= spec_build_annotations(report.files@.take(0)));
    }
    while i < n
        invariant
            n == report.files@.len(),
            0 <= i <= n,
            out.deep_view() == spec_build_annotations(report.files@.take(i as int)),
            forall|k: int|
                0 <= k < out@.len() ==> {
                    let a = #[trigger] out@[k];
                    &&& a.start_line <= a.end_line
                    &&& a.message@ == spec_annotation_message(a.start_line, a.end_line)
                    &&& exists|e: int|
                        0 <= e < report.files@.len() && (#[trigger] report.files@[e]).path@
                            == a.path@
                },
        decreases n - i,
    {
        let ghost base = out.deep_view();
        let f = &report.files[i];
        proof {
            assert(report.files@.take(i + 1).drop_last() =~= report.files@.take(i as int));
            assert(report.files@.take(i + 1).last() == report.files@[i as int]);
        }
        if f.missed_lines.len() > 0 && sorted_strict_check(&f.covered_lines)
            && sorted_strict_check(&f.missed_lines) {
            let inst = f.all_instrumentable();
            proof {
                lemma_coalesce_ranges(f.missed_lines@, inst@);
            }
            let ranges = coalesce_ranges(f.missed_lines.as_slice(), inst.as_slice());
            let ghost anns = spec_file_annotations(&report.files@[i as int]);
            proof {
                assert(ranges@ == spec_coalesce(
                    f.missed_lines@,
                    crate::model::spec_merge_lines(f.covered_lines@, f.missed_lines@),
                ));
                assert(anns.len() == ranges@.len());
            }
            let m = ranges.len();
            let mut k: usize = 0;
            while k < m
                invariant
                    n == report.files@.len(),
                    0 <= i < n,
                    f.path@ == report.files@[i as int].path@,
                    m == ranges@.len(),
                    0 <= k <= m,
                    anns == spec_file_annotations(&report.files@[i as int]),
                    anns.len() == m,
                    forall|q: int|
                        0 <= q < m ==> #[trigger] anns[q] == (crate::model::AnnotationView {
                            path: report.files@[i as int].path@,
                            start_line: ranges@[q].0,
                            end_line: ranges@[q].1,
                            message: spec_annotation_message(ranges@[q].0, ranges@[q].1),
                        }),
                    out.deep_view() == base + anns.take(k as int),
                    forall|q: int|
                        0 <= q < ranges@.len() ==> (#[trigger] ranges@[q]).0 <= ranges@[q].1,
                    forall|q: int|
                        0 <= q < out@.len() ==> {
                            let a = #[trigger] out@[q];
                            &&& a.start_line <= a.end_line
                            &&& a.message@ == spec_annotation_message(a.start_line, a.end_line)
                            &&& exists|e: int|
                                0 <= e < report.files@.len() && (
                                #[trigger] report.files@[e]).path@ == a.path@
                        },
                decreases m - k,
            {
                let ghost out0 = out.deep_view();
                let (start, end) = (ranges[k].0, ranges[k].1);
                let a = crate::model::Annotation {
                    path: crate::diff::clone_string(&f.path),
                    start_line: start,
                    end_line: end,
                    message: annotation_message(start, end),
                };
                let ghost av = a@;
                out.push(a);
                proof {
                    assert(report.files@[i as int].path@ == out@[out@.len() - 1].path@);
                    assert(out.deep_view() =~= out0.push(av)) by {
                        assert(forall|q: int|
                            0 <= q < out0.len() ==> #[trigger] out.deep_view()[q] == out0[q]);
                        assert(out.deep_view()[out0.len() as int] == out@[out0.len() as int]@);
                    }
                    assert(av == anns[k as int]);
                    assert(out.deep_view() =~= base + anns.take(k + 1)) by {
                        assert(anns.take(k + 1).drop_last() =~= anns.take(k as int));
                        assert(anns.take(k + 1).last() == anns[k as int]);
                        assert(base + anns.take(k + 1) =~= (base + anns.take(k as int)).push(
                            anns[k as int],
                        ));
                    }
                }
                k += 1;
            }
            proof {
                assert(anns.take(m as int) =~= anns);
                assert(out.deep_view() =~= spec_build_annotations(report.files@.take(i + 1)));
            }
        } else {
            proof {
                assert(spec_file_annotations(&report.files@[i as int]) =~= Seq::<
                    crate::model::AnnotationView,
                >::empty());
                assert(out.deep_view() =~= base + spec_file_annotations(
                    &report.files@[i as int],
                ));
                assert(out.deep_view() =~= spec_build_annotations(report.files@.take(i + 1)));
            }
        }
        i += 1;
    }
    proof {
        assert(report.files@.take(n as int) =~= report.files@);
    }
    out
}


/// The total number of added lines a diff records, across its entries.
pub open spec fn spec_diff_line_total(entries: Seq<(Seq<char>, Seq<u32>)>) -> int
    decreases entries.len(),
{
    if entries.len() == 0 {
        0
    } else {
        spec_diff_line_total(entries.drop_last()) + entries.last().1.len()
    }
}

/// The diff entries with a path prefix applied, as `apply_path_prefix`
/// rewrites them.
pub open spec fn spec_prefix_entries(
    entries: Seq<(Seq<char>, Seq<u32>)>,
    prefix: Seq<char>,
) -> Seq<(Seq<char>, Seq<u32>)> {
    Seq::new(
        entries.len(),
        |i: int| (crate::diff::spec_trim_slashes(prefix) + seq!['/'] + entries[i].0, entries[i].1),
    )
}

/// Build a diff coverage report from parsed diff lines and the store:
/// the per-file rows and totals of `diff_coverage`, the overall project
/// line rate when the store holds lines, and each listed file's total
/// rate.
pub fn build_report(
    store: &crate::store::Store,
    diff_lines: &crate::diff::DiffLines,
    sha: Option<&str>,
) -> (r: DiffCoverageReport)
    requires
        crate::diff::unique_paths(diff_lines@),
    ensures
        r.diff_files == diff_lines@.len(),
        r.diff_lines == crate::store::sat_usize(spec_diff_line_total(diff_lines@)),
        r.total_covered == crate::store::sat_usize(crate::store::spec_sum_covered(r.files@)),
        r.total_instrumentable == crate::store::sat_usize(
            crate::store::spec_sum_instr(r.files@),
        ),
        match sha {
            Some(s) => r.sha matches Some(o) && o@ == s@,
            None => r.sha is None,
        },
        match r.total_rate {
            Some(rt) => {
                &&& store@.reports.len() > 0
                &&& rt.covered == crate::store::sat_u64(
                    crate::store::spec_cov_lines(store@, store@.source_files),
                )
                &&& rt.total == crate::store::sat_u64(
                    crate::store::spec_total_lines(store@, store@.source_files),
                )
                &&& rt.total > 0
            },
            None => store@.reports.len() == 0 || crate::store::sat_u64(
                crate::store::spec_total_lines(store@, store@.source_files),
            ) == 0,
        },
        forall|k: int|
            0 <= k < r.file_rates@.len() ==> {
                let p = (#[trigger] r.file_rates@[k]).0@;
                &&& crate::store::line_keys(Seq::empty(), store@.reports, p).len() > 0
                &&& r.file_rates@[k].1.covered == crate::store::sat_u64(
                    crate::store::count_cov_lines(
                        store@.reports,
                        p,
                        crate::store::line_keys(Seq::empty(), store@.reports, p),
                    ),
                )
                &&& r.file_rates@[k].1.total == crate::store::sat_u64(
                    crate::store::line_keys(Seq::empty(), store@.reports, p).len() as int,
                )
            },
        forall|k: int|
            0 <= k < r.files@.len() ==> crate::store::file_diff_ok(
                store@,
                diff_lines@,
                #[trigger] &r.files@[k],
            ),
        forall|e: int|
            0 <= e < diff_lines@.len() && crate::store::entry_has_instr(
                store@,
                #[trigger] diff_lines@[e],
            ) ==> exists|k: int|
                0 <= k < r.files@.len() && (#[trigger] r.files@[k]).path@ == diff_lines@[e].0,
{
    let diff_files = diff_lines.len();
    let mut diff_line_count: usize = 0;
    let n = diff_lines.entries.len();
    let ghost dv = diff_lines@;
    let mut i: usize = 0;
    proof {
        assert(dv.take(0) =~= Seq::<(Seq<char>, Seq<u32>)>::empty());
    }
    while i < n
        invariant
            n == diff_lines.entries@.len(),
            dv == diff_lines@,
            dv.len() == n,
            0 <= i <= n,
            diff_line_count == crate::store::sat_usize(spec_diff_line_total(dv.take(i as int))),
        decreases n - i,
    {
        proof {
            assert(dv.take(i + 1).drop_last() =~= dv.take(i as int));
            assert(dv.take(i + 1).last() == dv[i as int]);
            assert(dv[i as int].1 == diff_lines.entries@[i as int].1@);
        }
        let c = diff_lines.entries[i].1.len();
        diff_line_count = if diff_line_count > usize::MAX - c {
            usize::MAX
        } else {
            diff_line_count + c
        };
        i += 1;
    }
    proof {
        assert(dv.take(n as int) =~= dv);
    }
    let (files, total_covered, total_instrumentable) = store.diff_coverage(diff_lines);
    let total_rate: Option<Rate> = match store.get_summary() {
        Ok(s) => if s.total_lines > 0 {
            Some(Rate { covered: s.covered_lines, total: s.total_lines })
        } else {
            None
        },
        Err(_) => None,
    };
    let mut file_rates: Vec<(String, Rate)> = Vec::new();
    let fn2 = files.len();
    let mut k: usize = 0;
    while k < fn2
        invariant
            fn2 == files@.len(),
            0 <= k <= fn2,
            forall|q: int|
                0 <= q < file_rates@.len() ==> {
                    let p = (#[trigger] file_rates@[q]).0@;
                    &&& crate::store::line_keys(Seq::empty(), store@.reports, p).len() > 0
                    &&& file_rates@[q].1.covered == crate::store::sat_u64(
                        crate::store::count_cov_lines(
                            store@.reports,
                            p,
                            crate::store::line_keys(Seq::empty(), store@.reports, p),
                        ),
                    )
                    &&& file_rates@[q].1.total == crate::store::sat_u64(
                        crate::store::line_keys(Seq::empty(), store@.reports, p).len() as int,
                    )
                },
        decreases fn2 - k,
    {
        match store.get_file_line_rate(files[k].path.as_str()) {
            Some((covered, total)) => {
                file_rates.push(
                    (crate::diff::clone_string(&files[k].path), Rate { covered, total }),
                );
            },
            None => {},
        }
        k += 1;
    }
    let sha_owned: Option<String> = match sha {
        Some(s) => Some(s.to_owned()),
        None => None,
    };
    let ghost files_v = files@;
    let result = DiffCoverageReport {
        diff_files,
        diff_lines: diff_line_count,
        files,
        total_covered,
        total_instrumentable,
        total_rate,
        file_rates,
        sha: sha_owned,
    };
    proof {
        assert(result.files@ == files_v);
        assert forall|e: int|
            0 <= e < diff_lines@.len() && crate::store::entry_has_instr(
                store@,
                #[trigger] diff_lines@[e],
            ) implies exists|k: int|
            0 <= k < result.files@.len() && (#[trigger] result.files@[k]).path@
                == diff_lines@[e].0 by {
            let k0 = choose|k0: int|
                0 <= k0 < files_v.len() && (#[trigger] files_v[k0]).path@ == diff_lines@[e].0;
            assert(result.files@[k0].path@ == diff_lines@[e].0);
        }
    }
    result
}

/// The diff entries this pipeline queries: the parsed diff, with the
/// path prefix applied when one is given.
pub open spec fn spec_pipeline_entries(diff_bytes: Seq<u8>, path_prefix: Option<Seq<char>>) -> Seq<
    (Seq<char>, Seq<u32>),
> {
    match path_prefix {
        Some(prefix) => spec_prefix_entries(crate::diff::spec_parse_diff(diff_bytes), prefix),
        None => crate::diff::spec_parse_diff(diff_bytes),
    }
}

/// Parse a diff, apply an optional path prefix, and build the report:
/// the whole diff-coverage pipeline from diff text to renderable data.
pub fn diff_report_from_text(
    store: &crate::store::Store,
    diff_text: &str,
    path_prefix: Option<&str>,
    sha: Option<&str>,
) -> (r: DiffCoverageReport)
    ensures
        ({
            let entries = spec_pipeline_entries(
                vstd::string::StringSliceAdditionalSpecFns::spec_bytes(diff_text),
                match path_prefix {
                    Some(p) => Some(p@),
                    None => None,
                },
            );
            &&& r.diff_files == entries.len()
            &&& r.diff_lines == crate::store::sat_usize(spec_diff_line_total(entries))
            &&& r.total_covered == crate::store::sat_usize(
                crate::store::spec_sum_covered(r.files@),
            )
            &&& r.total_instrumentable == crate::store::sat_usize(
                crate::store::spec_sum_instr(r.files@),
            )
            &&& forall|k: int|
                0 <= k < r.files@.len() ==> crate::store::file_diff_ok(
                    store@,
                    entries,
                    #[trigger] &r.files@[k],
                )
            &&& forall|e: int|
                0 <= e < entries.len() && crate::store::entry_has_instr(
                    store@,
                    #[trigger] entries[e],
                ) ==> exists|k: int|
                    0 <= k < r.files@.len() && (#[trigger] r.files@[k]).path@ == entries[e].0
            &&& (match sha {
                Some(s) => r.sha matches Some(o) && o@ == s@,
                None => r.sha is None,
            })
        }),
{
    let parsed = crate::diff::parse_diff(diff_text);
    proof {
        crate::diff::lemma_parse_diff_unique(
            vstd::string::StringSliceAdditionalSpecFns::spec_bytes(diff_text),
        );
    }
    match path_prefix {
        Some(prefix) => {
            let prefixed = crate::diff::apply_path_prefix(parsed, prefix);
            proof {
                assert(prefixed@ =~= spec_prefix_entries(
                    crate::diff::spec_parse_diff(
                        vstd::string::StringSliceAdditionalSpecFns::spec_bytes(diff_text),
                    ),
                    prefix@,
                ));
                assert forall|a: int, b: int|
                    0 <= a < b < prefixed@.len() implies (#[trigger] prefixed@[a]).0 != (
                #[trigger] prefixed@[b]).0 by {
                    if prefixed@[a].0 == prefixed@[b].0 {
                        let pa = prefixed@[a].0;
                        let base = crate::diff::spec_trim_slashes(prefix@) + seq!['/'];
                        assert(pa.skip(base.len() as int) =~= pa.skip(base.len() as int));
                        assert(prefixed@[a].0.skip(base.len() as int) =~= crate::diff::spec_parse_diff(
                            vstd::string::StringSliceAdditionalSpecFns::spec_bytes(diff_text),
                        )[a].0);
                        assert(prefixed@[b].0.skip(base.len() as int) =~= crate::diff::spec_parse_diff(
                            vstd::string::StringSliceAdditionalSpecFns::spec_bytes(diff_text),
                        )[b].0);
                    }
                }
            }
            build_report(store, &prefixed, sha)
        },
        None => build_report(store, &parsed, sha),
    }
}

} // verus!
