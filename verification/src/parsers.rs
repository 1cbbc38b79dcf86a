//! The coverage parser framework: one parser per input format, each
//! turning raw bytes into per-file coverage records with uniform
//! semantics, and content-based detection that picks the right one.

pub mod clover;
pub mod cobertura;
pub mod gocover;
pub mod istanbul;
pub mod jacoco;
pub mod lcov;

use vstd::prelude::*;
use vstd::string::StringSliceAdditionalSpecFns;

verus! {

/// Supported coverage formats.
#[derive(Debug, Clone, Copy, PartialEq, Eq, Structural)]
pub enum Format {
    Clover,
    Cobertura,
    Gocover,
    Istanbul,
    Jacoco,
    Lcov,
}

impl Format {
    /// The format's lower-case name.
    pub fn as_str(&self) -> (r: &'static str)
        ensures
            r@ == spec_format_name(*self),
    {
        match self {
            Format::Clover => "clover",
            Format::Cobertura => "cobertura",
            Format::Gocover => "gocover",
            Format::Istanbul => "istanbul",
            Format::Jacoco => "jacoco",
            Format::Lcov => "lcov",
        }
    }
}

/// The name each format prints as.
pub open spec fn spec_format_name(f: Format) -> Seq<char> {
    match f {
        Format::Clover => ("clover")@,
        Format::Cobertura => ("cobertura")@,
        Format::Gocover => ("gocover")@,
        Format::Istanbul => ("istanbul")@,
        Format::Jacoco => ("jacoco")@,
        Format::Lcov => ("lcov")@,
    }
}



/// One byte lower-cased, ASCII only.
pub open spec fn spec_lower_byte(c: u8) -> u8 {
    if 65 <= c && c <= 90 {
        (c + 32) as u8
    } else {
        c
    }
}

/// A byte run lower-cased, ASCII only.
pub open spec fn spec_lower_bytes(s: Seq<u8>) -> Seq<u8> {
    Seq::new(s.len(), |i: int| spec_lower_byte(s[i]))
}

/// The extension search: scanning leftward from position `i`, the
/// lower-cased bytes after the first dot, unless a slash comes first.
pub open spec fn spec_ext_search(p: Seq<u8>, i: int) -> Option<Seq<u8>>
    decreases i,
{
    if i <= 0 {
        None
    } else if p[i - 1] == 46 {
        Some(spec_lower_bytes(p.skip(i)))
    } else if p[i - 1] == 47 {
        None
    } else {
        spec_ext_search(p, i - 1)
    }
}

/// The lower-cased extension after the last dot of the last segment.
pub open spec fn spec_path_extension(p: Seq<u8>) -> Option<Seq<u8>> {
    spec_ext_search(p, p.len() as int)
}

/// Where the last path segment starts, judged from the first `i` bytes.
pub open spec fn spec_last_seg_start(p: Seq<u8>, i: int) -> int
    decreases i,
{
    if i <= 0 {
        0
    } else if p[i - 1] == 47 {
        i
    } else {
        spec_last_seg_start(p, i - 1)
    }
}

/// The lower-cased last segment of a path.
pub open spec fn spec_path_file_name(p: Seq<u8>) -> Seq<u8> {
    spec_lower_bytes(p.skip(spec_last_seg_start(p, p.len() as int)))
}

/// Whether any line of the head starts with the marker.
pub open spec fn spec_any_line_starts_with(head: Seq<u8>, marker: Seq<u8>) -> bool {
    exists|i: int|
        0 <= i < crate::text::spec_split_lines(head).len() && crate::text::spec_starts_with(
            #[trigger] crate::text::spec_split_lines(head)[i],
            marker,
        )
}

/// Whether the head looks like XML: an `<?xml` declaration anywhere, or
/// `<` after leading whitespace.
pub open spec fn spec_looks_like_xml(head: Seq<u8>) -> bool {
    crate::parsers::istanbul::spec_contains_seq(head, seq![60u8, 63u8, 120u8, 109u8, 108u8])
        || crate::text::spec_starts_with(crate::text::spec_trim_start(head), seq![60u8])
}

/// LCOV's claim: an `.info` or `.lcov` extension, or `SF:` lines next to
/// `DA:` or `FN:` lines.
pub open spec fn spec_claims_lcov(path: Seq<u8>, head: Seq<u8>) -> bool {
    (match spec_path_extension(path) {
        Some(e) => e == seq![105u8, 110u8, 102u8, 111u8] || e == seq![108u8, 99u8, 111u8, 118u8],
        None => false,
    }) || (spec_any_line_starts_with(head, seq![83u8, 70u8, 58u8]) && (spec_any_line_starts_with(
        head,
        seq![68u8, 65u8, 58u8],
    ) || spec_any_line_starts_with(head, seq![70u8, 78u8, 58u8])))
}

/// Go cover's claim: a `.coverprofile` or `.gocov` extension, a leading
/// `mode: ` line, or any line shaped like a coverage block.
pub open spec fn spec_claims_gocover(path: Seq<u8>, head: Seq<u8>) -> bool {
    (match spec_path_extension(path) {
        Some(e) => e == seq![
            99u8,
            111u8,
            118u8,
            101u8,
            114u8,
            112u8,
            114u8,
            111u8,
            102u8,
            105u8,
            108u8,
            101u8,
        ] || e == seq![103u8, 111u8, 99u8, 111u8, 118u8],
        None => false,
    }) || (crate::text::spec_split_lines(head).len() > 0 && crate::text::spec_starts_with(
        crate::text::spec_split_lines(head)[0],
        seq![109u8, 111u8, 100u8, 101u8, 58u8, 32u8],
    )) || (exists|i: int|
        0 <= i < crate::text::spec_split_lines(head).len()
            && crate::parsers::gocover::spec_looks_like_go_block(
            #[trigger] crate::text::spec_split_lines(head)[i],
        ))
}

/// Istanbul's claim: the `coverage-final.json` file name, or a JSON
/// object head holding its markers.
pub open spec fn spec_claims_istanbul(path: Seq<u8>, head: Seq<u8>) -> bool {
    spec_path_file_name(path) == seq![
        99u8,
        111u8,
        118u8,
        101u8,
        114u8,
        97u8,
        103u8,
        101u8,
        45u8,
        102u8,
        105u8,
        110u8,
        97u8,
        108u8,
        46u8,
        106u8,
        115u8,
        111u8,
        110u8,
    ] || crate::parsers::istanbul::spec_looks_like_istanbul_bytes(head)
}

/// JaCoCo's claim: XML with a `<report` root and a JaCoCo marker or a
/// `<package` tag.
pub open spec fn spec_claims_jacoco(head: Seq<u8>) -> bool {
    spec_looks_like_xml(head) && crate::parsers::istanbul::spec_contains_seq(
        head,
        seq![60u8, 114u8, 101u8, 112u8, 111u8, 114u8, 116u8],
    ) && (crate::parsers::istanbul::spec_contains_seq(
        head,
        seq![106u8, 97u8, 99u8, 111u8, 99u8, 111u8],
    ) || crate::parsers::istanbul::spec_contains_seq(
        head,
        seq![74u8, 65u8, 67u8, 79u8, 67u8, 79u8],
    ) || crate::parsers::istanbul::spec_contains_seq(
        head,
        seq![60u8, 112u8, 97u8, 99u8, 107u8, 97u8, 103u8, 101u8],
    ))
}

/// Cobertura's claim: XML with a `<coverage` root.
pub open spec fn spec_claims_cobertura(head: Seq<u8>) -> bool {
    spec_looks_like_xml(head) && crate::parsers::istanbul::spec_contains_seq(
        head,
        seq![60u8, 99u8, 111u8, 118u8, 101u8, 114u8, 97u8, 103u8, 101u8],
    )
}

/// Clover's claim: a `<coverage` root carrying a `clover=` attribute.
pub open spec fn spec_claims_clover(head: Seq<u8>) -> bool {
    spec_claims_cobertura(head) && crate::parsers::istanbul::spec_contains_seq(
        head,
        seq![99u8, 108u8, 111u8, 118u8, 101u8, 114u8, 61u8],
    )
}

/// Which files each format claims, judged from path and content head.
pub open spec fn spec_claims_format(f: Format, path: Seq<u8>, head: Seq<u8>) -> bool {
    match f {
        Format::Lcov => spec_claims_lcov(path, head),
        Format::Gocover => spec_claims_gocover(path, head),
        Format::Istanbul => spec_claims_istanbul(path, head),
        Format::Jacoco => spec_claims_jacoco(head),
        Format::Clover => spec_claims_clover(head),
        Format::Cobertura => spec_claims_cobertura(head),
    }
}

/// The format detection settles on: the first claim to hold, in
/// priority order.
pub open spec fn spec_detect(path: Seq<u8>, head: Seq<u8>) -> Option<Format> {
    if spec_claims_lcov(path, head) {
        Some(Format::Lcov)
    } else if spec_claims_gocover(path, head) {
        Some(Format::Gocover)
    } else if spec_claims_istanbul(path, head) {
        Some(Format::Istanbul)
    } else if spec_claims_jacoco(head) {
        Some(Format::Jacoco)
    } else if spec_claims_clover(head) {
        Some(Format::Clover)
    } else if spec_claims_cobertura(head) {
        Some(Format::Cobertura)
    } else {
        None
    }
}

/// Whether the head of a file looks like XML.
pub fn looks_like_xml(head: &[u8]) -> (r: bool)
    ensures
        r == spec_looks_like_xml(head@),
{
    let marker: Vec<u8> = vec![60, 63, 120, 109, 108];
    proof {
        assert(marker@ =~= seq![60u8, 63u8, 120u8, 109u8, 108u8]);
    }
    if crate::parsers::istanbul::contains_seq(head, marker.as_slice()) {
        return true;
    }
    let trimmed = crate::parsers::gocover::skip_ws_pub(head);
    let lt: Vec<u8> = vec![60];
    proof {
        assert(lt@ =~= seq![60u8]);
    }
    crate::text::starts_with(trimmed, lt.as_slice())
}

/// The lower-cased extension of a path, after the last dot of its last
/// segment.
pub fn path_extension(path: &str) -> (r: Option<Vec<u8>>)
    ensures
        match r {
            Some(v) => spec_path_extension(path.spec_bytes()) == Some(v@),
            None => spec_path_extension(path.spec_bytes()) is None,
        },
{
    let bytes = path.as_bytes();
    let n = bytes.len();
    let mut i: usize = n;
    while i > 0
        invariant
            0 <= i <= n,
            n == bytes@.len(),
            bytes@ == path.spec_bytes(),
            spec_ext_search(bytes@, n as int) == spec_ext_search(bytes@, i as int),
        decreases i,
    {
        let b = *vstd::slice::slice_index_get(bytes, i - 1);
        if b == 46 {
            let ext = vstd::slice::slice_subrange(bytes, i, n);
            proof {
                assert(ext@ =~= bytes@.skip(i as int));
            }
            let mut out: Vec<u8> = Vec::new();
            let m = ext.len();
            let mut k: usize = 0;
            while k < m
                invariant
                    0 <= k <= m,
                    m == ext@.len(),
                    out@.len() == k,
                    forall|j: int| 0 <= j < k ==> #[trigger] out@[j] == spec_lower_byte(ext@[j]),
                decreases m - k,
            {
                let c = *vstd::slice::slice_index_get(ext, k);
                out.push(
                    if 65 <= c && c <= 90 {
                        (c + 32) as u8
                    } else {
                        c
                    },
                );
                k += 1;
            }
            proof {
                assert(out@ =~= spec_lower_bytes(ext@));
                assert(spec_ext_search(bytes@, i as int) == Some(
                    spec_lower_bytes(bytes@.skip(i as int)),
                ));
            }
            return Some(out);
        }
        if b == 47 {
            return None;
        }
        i -= 1;
    }
    None
}

/// The lower-cased last segment of a path.
pub fn path_file_name(path: &str) -> (r: Vec<u8>)
    ensures
        r@ == spec_path_file_name(path.spec_bytes()),
{
    let bytes = path.as_bytes();
    let n = bytes.len();
    let mut start: usize = 0;
    let mut i: usize = 0;
    while i < n
        invariant
            0 <= start <= i <= n,
            n == bytes@.len(),
            bytes@ == path.spec_bytes(),
            start == spec_last_seg_start(bytes@, i as int),
        decreases n - i,
    {
        if *vstd::slice::slice_index_get(bytes, i) == 47 {
            start = i + 1;
        }
        i += 1;
    }
    let seg = vstd::slice::slice_subrange(bytes, start, n);
    proof {
        assert(seg@ =~= bytes@.skip(start as int));
    }
    let mut out: Vec<u8> = Vec::new();
    let m = seg.len();
    let mut k: usize = 0;
    while k < m
        invariant
            0 <= k <= m,
            m == seg@.len(),
            out@.len() == k,
            forall|j: int| 0 <= j < k ==> #[trigger] out@[j] == spec_lower_byte(seg@[j]),
        decreases m - k,
    {
        let c = *vstd::slice::slice_index_get(seg, k);
        out.push(
            if 65 <= c && c <= 90 {
                (c + 32) as u8
            } else {
                c
            },
        );
        k += 1;
    }
    proof {
        assert(out@ =~= spec_lower_bytes(seg@));
    }
    out
}

/// Whether any line of the head starts with the marker.
fn any_line_starts_with(head: &[u8], marker: &[u8]) -> (r: bool)
    ensures
        r == spec_any_line_starts_with(head@, marker@),
{
    let lines = crate::text::split_lines(head);
    let n = lines.len();
    let mut i: usize = 0;
    while i < n
        invariant
            0 <= i <= n,
            n == lines@.len(),
            lines.deep_view() == crate::text::spec_split_lines(head@),
            forall|j: int|
                0 <= j < i ==> !crate::text::spec_starts_with(
                    #[trigger] crate::text::spec_split_lines(head@)[j],
                    marker@,
                ),
        decreases n - i,
    {
        proof {
            assert(lines@[i as int]@ == lines.deep_view()[i as int]);
        }
        if crate::text::starts_with(lines[i].as_slice(), marker) {
            proof {
                assert(crate::text::spec_starts_with(
                    crate::text::spec_split_lines(head@)[i as int],
                    marker@,
                ));
            }
            return true;
        }
        i += 1;
    }
    proof {
        if spec_any_line_starts_with(head@, marker@) {
            let j = choose|j: int|
                0 <= j < crate::text::spec_split_lines(head@).len()
                    && crate::text::spec_starts_with(
                    #[trigger] crate::text::spec_split_lines(head@)[j],
                    marker@,
                );
            assert(!crate::text::spec_starts_with(
                crate::text::spec_split_lines(head@)[j],
                marker@,
            ));
        }
    }
    false
}

/// Parser for a specific coverage format: cheap detection from the path
/// and the head of the content, and a full parse.
pub trait CoverageParser {
    /// The format this parser handles, as a spec value.
    spec fn spec_format(&self) -> Format;

    /// The files this parser claims, over path and head bytes.
    spec fn spec_claims(&self, path: Seq<u8>, head: Seq<u8>) -> bool;

    /// The format this parser handles.
    fn format(&self) -> (r: Format)
        ensures
            r == self.spec_format();

    /// Whether this parser can handle the given file, judged from its
    /// path and the first few kilobytes of content only.
    fn can_parse(&self, path: &str, head: &[u8]) -> (r: bool)
        ensures
            r == self.spec_claims(path.spec_bytes(), head@);

    /// Parse a whole input into per-file coverage records, exactly as
    /// the format's fold over the input describes.
    fn parse_data(&self, input: &[u8]) -> (r: Result<
        crate::model::CoverageData,
        crate::error::CovrsError,
    >)
        ensures
            match crate::ingest::spec_parse_known(self.spec_format(), input@) {
                Some(fs) => r matches Ok(d) && d@ == fs,
                None => r is Err,
            };
}

/// LCOV format parser.
pub struct LcovParser;

/// Go coverage profile parser.
pub struct GocoverParser;

/// Istanbul / NYC JSON parser.
pub struct IstanbulParser;

/// JaCoCo XML format parser.
pub struct JacocoParser;

/// Cobertura XML format parser.
pub struct CoberturaParser;

/// Clover XML format parser.
pub struct CloverParser;

impl CoverageParser for LcovParser {
    open spec fn spec_format(&self) -> Format {
        Format::Lcov
    }

    open spec fn spec_claims(&self, path: Seq<u8>, head: Seq<u8>) -> bool {
        spec_claims_lcov(path, head)
    }

    fn format(&self) -> (r: Format) {
        Format::Lcov
    }

    fn can_parse(&self, path: &str, head: &[u8]) -> (r: bool) {
        match path_extension(path) {
            Some(ext) => {
                let info: Vec<u8> = vec![105, 110, 102, 111];
                let lcov: Vec<u8> = vec![108, 99, 111, 118];
                proof {
                    assert(info@ =~= seq![105u8, 110u8, 102u8, 111u8]);
                    assert(lcov@ =~= seq![108u8, 99u8, 111u8, 118u8]);
                }
                if crate::text::bytes_eq(ext.as_slice(), info.as_slice()) || crate::text::bytes_eq(
                    ext.as_slice(),
                    lcov.as_slice(),
                ) {
                    return true;
                }
            },
            None => {},
        }
        let sf: Vec<u8> = vec![83, 70, 58];
        let da: Vec<u8> = vec![68, 65, 58];
        let fnm: Vec<u8> = vec![70, 78, 58];
        proof {
            assert(sf@ =~= seq![83u8, 70u8, 58u8]);
            assert(da@ =~= seq![68u8, 65u8, 58u8]);
            assert(fnm@ =~= seq![70u8, 78u8, 58u8]);
        }
        any_line_starts_with(head, sf.as_slice()) && (any_line_starts_with(head, da.as_slice())
            || any_line_starts_with(head, fnm.as_slice()))
    }

    fn parse_data(&self, input: &[u8]) -> (r: Result<
        crate::model::CoverageData,
        crate::error::CovrsError,
    >) {
        lcov::parse(input)
    }
}

impl CoverageParser for GocoverParser {
    open spec fn spec_format(&self) -> Format {
        Format::Gocover
    }

    open spec fn spec_claims(&self, path: Seq<u8>, head: Seq<u8>) -> bool {
        spec_claims_gocover(path, head)
    }

    fn format(&self) -> (r: Format) {
        Format::Gocover
    }

    fn can_parse(&self, path: &str, head: &[u8]) -> (r: bool) {
        match path_extension(path) {
            Some(ext) => {
                let profile: Vec<u8> = vec![
                    99, 111, 118, 101, 114, 112, 114, 111, 102, 105, 108, 101,
                ];
                let gocov: Vec<u8> = vec![103, 111, 99, 111, 118];
                proof {
                    assert(profile@ =~= seq![
                        99u8,
                        111u8,
                        118u8,
                        101u8,
                        114u8,
                        112u8,
                        114u8,
                        111u8,
                        102u8,
                        105u8,
                        108u8,
                        101u8,
                    ]);
                    assert(gocov@ =~= seq![103u8, 111u8, 99u8, 111u8, 118u8]);
                }
                if crate::text::bytes_eq(ext.as_slice(), profile.as_slice())
                    || crate::text::bytes_eq(ext.as_slice(), gocov.as_slice()) {
                    return true;
                }
            },
            None => {},
        }
        let lines = crate::text::split_lines(head);
        let mode: Vec<u8> = vec![109, 111, 100, 101, 58, 32];
        proof {
            assert(mode@ =~= seq![109u8, 111u8, 100u8, 101u8, 58u8, 32u8]);
        }
        if lines.len() > 0 {
            proof {
                assert(lines@[0]@ == lines.deep_view()[0]);
            }
            if crate::text::starts_with(lines[0].as_slice(), mode.as_slice()) {
                return true;
            }
        }
        let n = lines.len();
        let mut i: usize = 0;
        while i < n
            invariant
                0 <= i <= n,
                n == lines@.len(),
                lines.deep_view() == crate::text::spec_split_lines(head@),
                forall|j: int|
                    0 <= j < i ==> !crate::parsers::gocover::spec_looks_like_go_block(
                        #[trigger] crate::text::spec_split_lines(head@)[j],
                    ),
            decreases n - i,
        {
            proof {
                assert(lines@[i as int]@ == lines.deep_view()[i as int]);
            }
            if gocover::looks_like_go_block_exec(lines[i].as_slice()) {
                return true;
            }
            i += 1;
        }
        proof {
            if (exists|j: int|
                0 <= j < crate::text::spec_split_lines(head@).len()
                    && crate::parsers::gocover::spec_looks_like_go_block(
                    #[trigger] crate::text::spec_split_lines(head@)[j],
                )) {
                let j = choose|j: int|
                    0 <= j < crate::text::spec_split_lines(head@).len()
                        && crate::parsers::gocover::spec_looks_like_go_block(
                        #[trigger] crate::text::spec_split_lines(head@)[j],
                    );
                assert(!crate::parsers::gocover::spec_looks_like_go_block(
                    crate::text::spec_split_lines(head@)[j],
                ));
            }
        }
        false
    }

    fn parse_data(&self, input: &[u8]) -> (r: Result<
        crate::model::CoverageData,
        crate::error::CovrsError,
    >) {
        gocover::parse(input)
    }
}

impl CoverageParser for IstanbulParser {
    open spec fn spec_format(&self) -> Format {
        Format::Istanbul
    }

    open spec fn spec_claims(&self, path: Seq<u8>, head: Seq<u8>) -> bool {
        spec_claims_istanbul(path, head)
    }

    fn format(&self) -> (r: Format) {
        Format::Istanbul
    }

    fn can_parse(&self, path: &str, head: &[u8]) -> (r: bool) {
        let fname = path_file_name(path);
        let marker: Vec<u8> = vec![
            99, 111, 118, 101, 114, 97, 103, 101, 45, 102, 105, 110, 97, 108, 46, 106, 115, 111,
            110,
        ];
        proof {
            assert(marker@ =~= seq![
                99u8,
                111u8,
                118u8,
                101u8,
                114u8,
                97u8,
                103u8,
                101u8,
                45u8,
                102u8,
                105u8,
                110u8,
                97u8,
                108u8,
                46u8,
                106u8,
                115u8,
                111u8,
                110u8,
            ]);
        }
        if crate::text::bytes_eq(fname.as_slice(), marker.as_slice()) {
            return true;
        }
        istanbul::looks_like_istanbul_bytes(head)
    }

    fn parse_data(&self, input: &[u8]) -> (r: Result<
        crate::model::CoverageData,
        crate::error::CovrsError,
    >) {
        istanbul::parse(input)
    }
}

impl CoverageParser for JacocoParser {
    open spec fn spec_format(&self) -> Format {
        Format::Jacoco
    }

    open spec fn spec_claims(&self, path: Seq<u8>, head: Seq<u8>) -> bool {
        spec_claims_jacoco(head)
    }

    fn format(&self) -> (r: Format) {
        Format::Jacoco
    }

    fn can_parse(&self, _path: &str, head: &[u8]) -> (r: bool) {
        let report: Vec<u8> = vec![60, 114, 101, 112, 111, 114, 116];
        let jacoco_lc: Vec<u8> = vec![106, 97, 99, 111, 99, 111];
        let jacoco_uc: Vec<u8> = vec![74, 65, 67, 79, 67, 79];
        let package: Vec<u8> = vec![60, 112, 97, 99, 107, 97, 103, 101];
        proof {
            assert(report@ =~= seq![60u8, 114u8, 101u8, 112u8, 111u8, 114u8, 116u8]);
            assert(jacoco_lc@ =~= seq![106u8, 97u8, 99u8, 111u8, 99u8, 111u8]);
            assert(jacoco_uc@ =~= seq![74u8, 65u8, 67u8, 79u8, 67u8, 79u8]);
            assert(package@ =~= seq![60u8, 112u8, 97u8, 99u8, 107u8, 97u8, 103u8, 101u8]);
        }
        looks_like_xml(head) && crate::parsers::istanbul::contains_seq(head, report.as_slice())
            && (crate::parsers::istanbul::contains_seq(head, jacoco_lc.as_slice())
            || crate::parsers::istanbul::contains_seq(head, jacoco_uc.as_slice())
            || crate::parsers::istanbul::contains_seq(head, package.as_slice()))
    }

    fn parse_data(&self, input: &[u8]) -> (r: Result<
        crate::model::CoverageData,
        crate::error::CovrsError,
    >) {
        jacoco::parse(input)
    }
}

impl CoverageParser for CoberturaParser {
    open spec fn spec_format(&self) -> Format {
        Format::Cobertura
    }

    open spec fn spec_claims(&self, path: Seq<u8>, head: Seq<u8>) -> bool {
        spec_claims_cobertura(head)
    }

    fn format(&self) -> (r: Format) {
        Format::Cobertura
    }

    fn can_parse(&self, _path: &str, head: &[u8]) -> (r: bool) {
        let coverage: Vec<u8> = vec![60, 99, 111, 118, 101, 114, 97, 103, 101];
        proof {
            assert(coverage@ =~= seq![60u8, 99u8, 111u8, 118u8, 101u8, 114u8, 97u8, 103u8, 101u8]);
        }
        looks_like_xml(head) && crate::parsers::istanbul::contains_seq(head, coverage.as_slice())
    }

    fn parse_data(&self, input: &[u8]) -> (r: Result<
        crate::model::CoverageData,
        crate::error::CovrsError,
    >) {
        cobertura::parse(input)
    }
}

impl CoverageParser for CloverParser {
    open spec fn spec_format(&self) -> Format {
        Format::Clover
    }

    open spec fn spec_claims(&self, path: Seq<u8>, head: Seq<u8>) -> bool {
        spec_claims_clover(head)
    }

    fn format(&self) -> (r: Format) {
        Format::Clover
    }

    fn can_parse(&self, _path: &str, head: &[u8]) -> (r: bool) {
        let coverage: Vec<u8> = vec![60, 99, 111, 118, 101, 114, 97, 103, 101];
        let clover: Vec<u8> = vec![99, 108, 111, 118, 101, 114, 61];
        proof {
            assert(coverage@ =~= seq![60u8, 99u8, 111u8, 118u8, 101u8, 114u8, 97u8, 103u8, 101u8]);
            assert(clover@ =~= seq![99u8, 108u8, 111u8, 118u8, 101u8, 114u8, 61u8]);
        }
        looks_like_xml(head) && crate::parsers::istanbul::contains_seq(head, coverage.as_slice())
            && crate::parsers::istanbul::contains_seq(head, clover.as_slice())
    }

    fn parse_data(&self, input: &[u8]) -> (r: Result<
        crate::model::CoverageData,
        crate::error::CovrsError,
    >) {
        clover::parse(input)
    }
}

/// All registered formats, in detection priority order: the most specific
/// content markers first, so LCOV's line prefixes and Go cover's block
/// pattern run before the JSON check, and JaCoCo's `<report>` markers
/// before the broader `<coverage>` roots, Clover's `clover=` attribute
/// before plain Cobertura.
pub fn all() -> (r: Vec<Format>)
    ensures
        r@ =~= seq![
            Format::Lcov,
            Format::Gocover,
            Format::Istanbul,
            Format::Jacoco,
            Format::Clover,
            Format::Cobertura,
        ],
{
    let mut v: Vec<Format> = Vec::new();
    v.push(Format::Lcov);
    v.push(Format::Gocover);
    v.push(Format::Istanbul);
    v.push(Format::Jacoco);
    v.push(Format::Clover);
    v.push(Format::Cobertura);
    v
}

/// Whether this format claims the given file.
pub fn can_parse_format(format: Format, path: &str, head: &[u8]) -> (r: bool)
    ensures
        r == spec_claims_format(format, path.spec_bytes(), head@),
{
    match format {
        Format::Lcov => LcovParser.can_parse(path, head),
        Format::Gocover => GocoverParser.can_parse(path, head),
        Format::Istanbul => IstanbulParser.can_parse(path, head),
        Format::Jacoco => JacocoParser.can_parse(path, head),
        Format::Clover => CloverParser.can_parse(path, head),
        Format::Cobertura => CoberturaParser.can_parse(path, head),
    }
}

/// Detect the format from the path and the head of the content: the
/// first claim to hold, in priority order.
pub fn detect(path: &str, head: &[u8]) -> (r: Option<Format>)
    ensures
        r == spec_detect(path.spec_bytes(), head@),
{
    let formats = all();
    let n = formats.len();
    let mut i: usize = 0;
    while i < n
        invariant
            0 <= i <= n,
            n == formats@.len(),
            formats@ =~= seq![
                Format::Lcov,
                Format::Gocover,
                Format::Istanbul,
                Format::Jacoco,
                Format::Clover,
                Format::Cobertura,
            ],
            forall|j: int|
                0 <= j < i ==> !spec_claims_format(
                    #[trigger] formats@[j],
                    path.spec_bytes(),
                    head@,
                ),
        decreases n - i,
    {
        if can_parse_format(formats[i], path, head) {
            return Some(formats[i]);
        }
        i += 1;
    }
    None
}

/// Parse a whole input in the given format: the override path around
/// detection. Each parser's exact contract carries through.
pub fn for_format(format: Format, input: &[u8]) -> (r: Result<
    crate::model::CoverageData,
    crate::error::CovrsError,
>)
    ensures
        format is Lcov ==> (match crate::parsers::lcov::spec_parse_lcov(input@) {
            Some(files) => r matches Ok(d) && d@ == files,
            None => r is Err,
        }),
        format is Gocover ==> (match crate::parsers::gocover::spec_parse_gocover(input@) {
            Some(files) => r matches Ok(d) && d@ == files,
            None => r is Err,
        }),
        format is Clover ==> (match crate::xml::spec_xml_events(input@) {
            Some(evs) => r matches Ok(d) && d@ == crate::parsers::clover::spec_parse_clover(evs),
            None => r is Err,
        }),
        format is Cobertura ==> (match crate::xml::spec_xml_events(input@) {
            Some(evs) => r matches Ok(d) && d@ == crate::parsers::cobertura::spec_parse_cobertura(
                evs,
            ),
            None => r is Err,
        }),
        format is Jacoco ==> (match crate::xml::spec_xml_events(input@) {
            Some(evs) => r matches Ok(d) && d@ == crate::parsers::jacoco::spec_parse_jacoco(evs),
            None => r is Err,
        }),
        format is Istanbul ==> crate::json::spec_json_ok(input@) == (crate::json::spec_json_tree(
            input@,
        ) is Some),
        format is Istanbul ==> (match r {
            Ok(d) => crate::json::spec_json_ok(input@) && (crate::json::spec_json_tree(input@)
                matches Some(doc) && d@ == crate::parsers::istanbul::spec_parse_istanbul(doc)),
            Err(_) => !crate::json::spec_json_ok(input@),
        }),
{
    match format {
        Format::Lcov => lcov::parse(input),
        Format::Gocover => gocover::parse(input),
        Format::Istanbul => istanbul::parse(input),
        Format::Jacoco => jacoco::parse(input),
        Format::Clover => clover::parse(input),
        Format::Cobertura => cobertura::parse(input),
    }
}

/// The format named by a command-line override, if known.
pub fn format_from_name(s: &str) -> (r: Option<Format>)
    ensures
        r == spec_format_from_name(s@),
{
    let bytes = s.as_bytes();
    let mut low: Vec<u8> = Vec::new();
    let n = bytes.len();
    let mut i: usize = 0;
    while i < n
        invariant
            0 <= i <= n,
            n == bytes@.len(),
            bytes@ == s.spec_bytes(),
            low@.len() == i,
            forall|j: int| 0 <= j < i ==> #[trigger] low@[j] == spec_lower_byte(bytes@[j]),
        decreases n - i,
    {
        let c = *vstd::slice::slice_index_get(bytes, i);
        low.push(
            if 65 <= c && c <= 90 {
                (c + 32) as u8
            } else {
                c
            },
        );
        i += 1;
    }
    proof {
        assert(low@ =~= spec_lower_bytes(s.spec_bytes()));
    }
    let l = low.as_slice();
    if crate::text::bytes_eq(l, ("cobertura").as_bytes()) {
        Some(Format::Cobertura)
    } else if crate::text::bytes_eq(l, ("gocover").as_bytes()) || crate::text::bytes_eq(
        l,
        ("go").as_bytes(),
    ) {
        Some(Format::Gocover)
    } else if crate::text::bytes_eq(l, ("istanbul").as_bytes()) || crate::text::bytes_eq(
        l,
        ("nyc").as_bytes(),
    ) {
        Some(Format::Istanbul)
    } else if crate::text::bytes_eq(l, ("jacoco").as_bytes()) {
        Some(Format::Jacoco)
    } else if crate::text::bytes_eq(l, ("clover").as_bytes()) {
        Some(Format::Clover)
    } else if crate::text::bytes_eq(l, ("lcov").as_bytes()) {
        Some(Format::Lcov)
    } else {
        None
    }
}

/// The override name table: each format under its names in any ASCII
/// casing, everything else refused.
pub open spec fn spec_format_from_name(s: Seq<char>) -> Option<Format> {
    let b = spec_lower_bytes(vstd::utf8::encode_utf8(s));
    if b == ("cobertura").spec_bytes() {
        Some(Format::Cobertura)
    } else if b == ("gocover").spec_bytes() || b == ("go").spec_bytes() {
        Some(Format::Gocover)
    } else if b == ("istanbul").spec_bytes() || b == ("nyc").spec_bytes() {
        Some(Format::Istanbul)
    } else if b == ("jacoco").spec_bytes() {
        Some(Format::Jacoco)
    } else if b == ("clover").spec_bytes() {
        Some(Format::Clover)
    } else if b == ("lcov").spec_bytes() {
        Some(Format::Lcov)
    } else {
        None
    }
}

} // verus!
