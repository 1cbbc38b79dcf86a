//! The ingest pipeline: pick a parser (an explicit override or content
//! detection over the head of the input), parse the bytes into file
//! records, strip the project root from absolute paths, and commit the
//! result to the store as one new report.

use vstd::prelude::*;
use vstd::string::{StrSliceExecFns, StringExecFns, StringSliceAdditionalSpecFns};
use crate::error::CovrsError;
use crate::model::{CoverageData, FileCoverage};
use crate::parsers::{Format, detect, for_format, format_from_name};
use crate::store::Store;
use crate::text::{decode_bytes, starts_with};

verus! {

/// How many bytes of the head are used for format auto-detection.
pub const SNIFF_SIZE: usize = 4096;

/// The first index at or after `i` that is not a path separator.
pub open spec fn spec_skip_slashes(s: Seq<u8>, i: int) -> int
    decreases s.len() - i,
{
    if 0 <= i < s.len() && s[i] == 47 {
        spec_skip_slashes(s, i + 1)
    } else {
        i
    }
}

proof fn lemma_skip_slashes(s: Seq<u8>, i: int, j: int)
    requires
        0 <= i <= j <= s.len(),
        forall|k: int| i <= k < j ==> #[trigger] s[k] == 47,
        j < s.len() ==> s[j] != 47,
    ensures
        spec_skip_slashes(s, i) == j,
    decreases j - i,
{
    if i < j {
        lemma_skip_slashes(s, i + 1, j);
    }
}

/// A path with the project root stripped: when the path is absolute and
/// begins with `root` followed by a separator (or `root` itself ends in
/// one), the root and the separators after it are removed and the valid
/// remainder decoded; every other path is unchanged.
pub open spec fn spec_normalize_path(path: Seq<char>, root: Seq<char>) -> Seq<char> {
    let pb = vstd::utf8::encode_utf8(path);
    let rb = vstd::utf8::encode_utf8(root);
    if rb.len() == 0 || pb.len() == 0 || pb[0] != 47 || !crate::text::spec_starts_with(pb, rb) {
        path
    } else if rb.last() != 47 && (pb.len() == rb.len() || pb[rb.len() as int] != 47) {
        path
    } else {
        let cut = if rb.last() == 47 {
            rb.len() as int
        } else {
            rb.len() as int + 1
        };
        let suffix = pb.skip(spec_skip_slashes(pb, cut));
        if vstd::utf8::valid_utf8(suffix) {
            vstd::utf8::decode_utf8(suffix)
        } else {
            path
        }
    }
}

/// Strips `root` from the front of an absolute path, with the path
/// separator after it, leaving other paths untouched.
pub fn normalize_file_path(file: &mut FileCoverage, root: &str)
    ensures
        final(file)@.path == spec_normalize_path(old(file)@.path, root@),
        final(file)@.lines == old(file)@.lines,
        final(file)@.branches == old(file)@.branches,
        final(file)@.functions == old(file)@.functions,
{
    let ghost p0 = file@.path;
    let path_bytes = file.path.as_str().as_bytes();
    let root_bytes = root.as_bytes();
    proof {
        assert(path_bytes@ == vstd::utf8::encode_utf8(p0));
        assert(root_bytes@ == vstd::utf8::encode_utf8(root@));
    }
    if root_bytes.len() == 0 || path_bytes.len() == 0 {
        return ;
    }
    if *vstd::slice::slice_index_get(path_bytes, 0) != 47 {
        // Only absolute paths are made relative.
        return ;
    }
    if !starts_with(path_bytes, root_bytes) {
        return ;
    }
    // The byte after the root must be a separator, unless the root itself
    // ends in one.
    let root_end_slash = *vstd::slice::slice_index_get(root_bytes, root_bytes.len() - 1) == 47;
    let mut cut = root_bytes.len();
    if !root_end_slash {
        if path_bytes.len() == cut {
            return ;
        }
        if *vstd::slice::slice_index_get(path_bytes, cut) != 47 {
            return ;
        }
        cut = cut + 1;
    }
    // Skip any further separators at the cut.
    let n = path_bytes.len();
    let mut lo = cut;
    while lo < n && *vstd::slice::slice_index_get(path_bytes, lo) == 47
        invariant
            cut <= lo <= n,
            n == path_bytes@.len(),
            forall|k: int| cut <= k < lo ==> #[trigger] path_bytes@[k] == 47,
        decreases n - lo,
    {
        lo += 1;
    }
    proof {
        lemma_skip_slashes(path_bytes@, cut as int, lo as int);
    }
    let rest = vstd::slice::slice_subrange(path_bytes, lo, n);
    proof {
        assert(rest@ =~= path_bytes@.skip(lo as int));
    }
    match decode_bytes(rest) {
        Some(p) => {
            file.path = p;
        },
        None => {
            // Unreachable for a path cut at ASCII separators; the path is
            // left untouched.
        },
    }
}


/// The start of a path's last segment: the index after its last
/// separator.
pub open spec fn spec_seg_start(s: Seq<u8>) -> int
    decreases s.len(),
{
    if s.len() == 0 {
        0
    } else if s.last() == 47 {
        s.len() as int
    } else {
        spec_seg_start(s.drop_last())
    }
}

proof fn lemma_seg_start(s: Seq<u8>, j: int)
    requires
        0 <= j <= s.len(),
        forall|k: int| j <= k < s.len() ==> #[trigger] s[k] != 47,
        j > 0 ==> s[j - 1] == 47,
    ensures
        spec_seg_start(s) == j,
    decreases s.len(),
{
    if j < s.len() {
        assert(s.last() != 47);
        lemma_seg_start(s.drop_last(), j);
    }
}

/// The report name an input file defaults to: its path's last segment,
/// or `unnamed` when that is empty or undecodable.
pub open spec fn spec_default_name(path: Seq<char>) -> Seq<char> {
    let pb = vstd::utf8::encode_utf8(path);
    let seg = pb.skip(spec_seg_start(pb));
    if vstd::utf8::valid_utf8(seg) && vstd::utf8::decode_utf8(seg).len() > 0 {
        vstd::utf8::decode_utf8(seg)
    } else {
        ("unnamed")@
    }
}

/// Parsed file records with their paths normalized against the project
/// root, when one is given.
pub open spec fn spec_normalize_data(
    files: Seq<crate::model::FileCoverageView>,
    root: Option<Seq<char>>,
) -> Seq<crate::model::FileCoverageView> {
    match root {
        None => files,
        Some(r) => Seq::new(
            files.len(),
            |i: int|
                crate::model::FileCoverageView {
                    path: spec_normalize_path(files[i].path, r),
                    ..files[i]
                },
        ),
    }
}

/// The file records a format's parser is specified to return, for the
/// formats whose parse carries a full functional specification.
pub open spec fn spec_parse_known(format: Format, input: Seq<u8>) -> Option<
    Seq<crate::model::FileCoverageView>,
> {
    match format {
        Format::Lcov => crate::parsers::lcov::spec_parse_lcov(input),
        Format::Gocover => crate::parsers::gocover::spec_parse_gocover(input),
        Format::Clover => match crate::xml::spec_xml_events(input) {
            Some(evs) => Some(crate::parsers::clover::spec_parse_clover(evs)),
            None => None,
        },
        Format::Cobertura => match crate::xml::spec_xml_events(input) {
            Some(evs) => Some(crate::parsers::cobertura::spec_parse_cobertura(evs)),
            None => None,
        },
        Format::Jacoco => match crate::xml::spec_xml_events(input) {
            Some(evs) => Some(crate::parsers::jacoco::spec_parse_jacoco(evs)),
            None => None,
        },
        Format::Istanbul => match crate::json::spec_json_tree(input) {
            Some(doc) => Some(crate::parsers::istanbul::spec_parse_istanbul(doc)),
            None => None,
        },
    }
}

/// The head of the input that detection reads: the first `SNIFF_SIZE`
/// bytes, or all of a shorter input.
pub open spec fn spec_sniff_head(bytes: Seq<u8>) -> Seq<u8> {
    if bytes.len() > SNIFF_SIZE {
        bytes.take(SNIFF_SIZE as int)
    } else {
        bytes
    }
}

/// The format an ingest call resolves to: the override name where one is
/// given, else detection over the path and the sniffed head.
pub open spec fn spec_resolved_format(
    format_override: Option<Seq<char>>,
    path: Seq<char>,
    bytes: Seq<u8>,
) -> Option<Format> {
    match format_override {
        Some(o) => crate::parsers::spec_format_from_name(o),
        None => crate::parsers::spec_detect(
            vstd::utf8::encode_utf8(path),
            spec_sniff_head(bytes),
        ),
    }
}

/// Parse coverage bytes — with an explicit format override, or with
/// content detection over the head — normalize paths against the project
/// root, and store the result as one new report named `report_name` (or
/// the input's file name). Returns the report id, the format, and the
/// report name used.
pub fn ingest_bytes(
    store: &mut Store,
    path_str: &str,
    bytes: &[u8],
    format_override: Option<&str>,
    report_name: Option<&str>,
    overwrite: bool,
    root: Option<&str>,
) -> (r: Result<(u64, Format, String), CovrsError>)
    requires
        old(store)@.next_id < u64::MAX,
    ensures
        r is Err ==> final(store)@.reports == old(store)@.reports && final(store)@.source_files
            == old(store)@.source_files && final(store)@.next_id == old(store)@.next_id,
        format_override matches Some(o) ==> (match crate::parsers::spec_format_from_name(o@) {
            Some(f) => r matches Ok(p) ==> p.1 == f,
            None => r matches Err(e) && e is Parse,
        }),
        format_override is None ==> (match crate::parsers::spec_detect(
            path_str.spec_bytes(),
            spec_sniff_head(bytes@),
        ) {
            Some(f) => r matches Ok(p) ==> p.1 == f,
            None => r matches Err(e) && e is UnknownFormat,
        }),
        ({
            let nm = match report_name {
                Some(n) => n@,
                None => spec_default_name(path_str@),
            };
            (spec_resolved_format(
                match format_override {
                    Some(o) => Some(o@),
                    None => None,
                },
                path_str@,
                bytes@,
            ) matches Some(f) && spec_parse_known(f, bytes@) is Some && !(
            crate::store::has_report_named(old(store)@.reports, nm) && !overwrite)) ==> r is Ok
        }),
        r matches Ok(p) ==> {
            let base = if overwrite {
                crate::store::remove_named(old(store)@.reports, p.2@)
            } else {
                old(store)@.reports
            };
            &&& p.2@ == (match report_name {
                Some(n) => n@,
                None => spec_default_name(path_str@),
            })
            &&& p.0 == old(store)@.next_id
            &&& final(store)@.next_id == old(store)@.next_id + 1
            &&& final(store)@.reports.len() == base.len() + 1
            &&& final(store)@.reports.take(base.len() as int) == base
            &&& final(store)@.reports.last().id == p.0
            &&& final(store)@.reports.last().name == p.2@
            &&& final(store)@.reports.last().source_format
                == crate::parsers::spec_format_name(p.1)
            &&& final(store)@.reports.last().source_file == Some(path_str@)
            &&& (spec_parse_known(p.1, bytes@) matches Some(fs) ==> final(store)@.reports.last().files == crate::store::build_files(
                Seq::empty(),
                spec_normalize_data(
                    fs,
                    match root {
                        Some(rt) => Some(rt@),
                        None => None,
                    },
                ),
            ))
        },
{
    let format: Format = match format_override {
        Some(name) => match format_from_name(name) {
            Some(f) => f,
            None => {
                let mut m = ("Unknown format: '").to_owned();
                m.append(name);
                m.append("'. Supported: clover, cobertura, gocover, istanbul, jacoco, lcov");
                return Err(CovrsError::Parse(m));
            },
        },
        None => {
            let head: &[u8] = if bytes.len() > SNIFF_SIZE {
                vstd::slice::slice_subrange(bytes, 0, SNIFF_SIZE)
            } else {
                bytes
            };
            proof {
                assert(head@ =~= spec_sniff_head(bytes@));
            }
            match detect(path_str, head) {
                Some(f) => f,
                None => {
                    return Err(CovrsError::UnknownFormat);
                },
            }
        },
    };
    let mut data: CoverageData = match for_format(format, bytes) {
        Ok(d) => d,
        Err(e) => {
            return Err(e);
        },
    };
    let ghost parsed = data@;
    match root {
        Some(root_str) => {
            let n = data.files.len();
            let mut i: usize = 0;
            while i < n
                invariant
                    n == data.files@.len(),
                    parsed.len() == n,
                    0 <= i <= n,
                    forall|k: int|
                        i <= k < n ==> #[trigger] data.files@[k]@ == parsed[k],
                    forall|k: int|
                        0 <= k < i ==> #[trigger] data.files@[k]@
                            == (crate::model::FileCoverageView {
                            path: spec_normalize_path(parsed[k].path, root_str@),
                            ..parsed[k]
                        }),
                decreases n - i,
    {
                let mut f = data.files.remove(i);
                normalize_file_path(&mut f, root_str);
                data.files.insert(i, f);
                i += 1;
            }
            proof {
                assert(data@ =~= spec_normalize_data(parsed, Some(root_str@))) by {
                    assert(forall|k: int|
                        0 <= k < n ==> #[trigger] data@[k] == data.files@[k]@);
                }
            }
        },
        None => {},
    }
    let name: String = match report_name {
        Some(n) => n.to_owned(),
        None => {
            let fname = file_name_of(path_str);
            if fname.as_str().unicode_len() == 0 {
                ("unnamed").to_owned()
            } else {
                fname
            }
        },
    };
    proof {
        match report_name {
            Some(n) => {},
            None => {
                assert(name@ == spec_default_name(path_str@));
            },
        }
    }
    let id = match store.insert_coverage(
        name.as_str(),
        format.as_str(),
        Some(path_str),
        &data,
        overwrite,
    ) {
        Ok(id) => id,
        Err(e) => {
            return Err(e);
        },
    };
    Ok((id, format, name))
}

/// The last path segment, as named reports default to.
fn file_name_of(path: &str) -> (r: String)
    ensures
        ({
            let pb = vstd::utf8::encode_utf8(path@);
            let seg = pb.skip(spec_seg_start(pb));
            if vstd::utf8::valid_utf8(seg) {
                r@ == vstd::utf8::decode_utf8(seg)
            } else {
                r@ == ("unnamed")@
            }
        }),
{
    let bytes = path.as_bytes();
    let n = bytes.len();
    let mut start: usize = 0;
    let mut i: usize = 0;
    while i < n
        invariant
            0 <= start <= i <= n,
            n == bytes@.len(),
            forall|k: int| start <= k < i ==> #[trigger] bytes@[k] != 47,
            start > 0 ==> bytes@[start - 1] == 47,
        decreases n - i,
    {
        if *vstd::slice::slice_index_get(bytes, i) == 47 {
            start = i + 1;
        }
        i += 1;
    }
    proof {
        lemma_seg_start(bytes@, start as int);
    }
    let seg = vstd::slice::slice_subrange(bytes, start, n);
    proof {
        assert(seg@ =~= bytes@.skip(start as int));
    }
    match decode_bytes(seg) {
        Some(s) => s,
        None => ("unnamed").to_owned(),
    }
}

} // verus!
