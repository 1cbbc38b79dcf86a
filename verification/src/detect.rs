//! First-pass format detection for the two line-oriented flagship
//! formats: a strong extension hint, then a peek at the head of the
//! content. The full multi-format detection, covering every registered
//! parser, lives with the parsers themselves.

use vstd::prelude::*;
use vstd::string::StringSliceAdditionalSpecFns;
use crate::parsers::CoverageParser;

verus! {

/// The formats this first pass can settle.
#[derive(Debug, Clone, Copy, PartialEq, Eq, Structural)]
pub enum Format {
    Cobertura,
    Lcov,
}

impl Format {
    /// The format's lower-case name.
    pub fn as_str(&self) -> (r: &'static str)
        ensures
            (*self is Cobertura ==> r@ == ("cobertura")@) && (*self is Lcov ==> r@ == ("lcov")@),
    {
        match self {
            Format::Cobertura => "cobertura",
            Format::Lcov => "lcov",
        }
    }
}

/// What the extension settles: `.info` or `.lcov` means LCOV.
pub open spec fn spec_detect_by_extension(p: Seq<u8>) -> Option<Format> {
    match crate::parsers::spec_path_extension(p) {
        Some(e) => if e == seq![105u8, 110u8, 102u8, 111u8] || e == seq![
            108u8,
            99u8,
            111u8,
            118u8,
        ] {
            Some(Format::Lcov)
        } else {
            None
        },
        None => None,
    }
}

/// What the content settles: LCOV's line prefixes, else an XML
/// `<coverage` root.
pub open spec fn spec_detect_by_content(c: Seq<u8>) -> Option<Format> {
    if crate::parsers::spec_claims_lcov(("").spec_bytes(), c) {
        Some(Format::Lcov)
    } else if crate::parsers::spec_looks_like_xml(c) && crate::parsers::istanbul::spec_contains_seq(
        c,
        seq![60u8, 99u8, 111u8, 118u8, 101u8, 114u8, 97u8, 103u8, 101u8],
    ) {
        Some(Format::Cobertura)
    } else {
        None
    }
}

/// Detect the coverage format from the file path and content head:
/// extension first, content second.
pub fn detect_format(path: &str, content: &[u8]) -> (r: Option<Format>)
    ensures
        r == (match spec_detect_by_extension(path.spec_bytes()) {
            Some(f) => Some(f),
            None => spec_detect_by_content(content@),
        }),
{
    match detect_by_extension(path) {
        Some(f) => Some(f),
        None => detect_by_content(content),
    }
}

/// A `.info` or `.lcov` extension settles LCOV; `.xml` needs content.
pub fn detect_by_extension(path: &str) -> (r: Option<Format>)
    ensures
        r == spec_detect_by_extension(path.spec_bytes()),
{
    match crate::parsers::path_extension(path) {
        None => None,
        Some(ext) => {
            let info: Vec<u8> = vec![105, 110, 102, 111];
            let lcov: Vec<u8> = vec![108, 99, 111, 118];
            proof {
                assert(info@ =~= seq![105u8, 110u8, 102u8, 111u8]);
                assert(lcov@ =~= seq![108u8, 99u8, 111u8, 118u8]);
            }
            if crate::text::bytes_eq(ext.as_slice(), info.as_slice()) || crate::text::bytes_eq(
                ext.as_slice(),
                lcov.as_slice(),
            ) {
                Some(Format::Lcov)
            } else {
                None
            }
        },
    }
}

/// LCOV's line prefixes, else an XML `<coverage` root.
pub fn detect_by_content(content: &[u8]) -> (r: Option<Format>)
    ensures
        r == spec_detect_by_content(content@),
{
    if crate::parsers::LcovParser.can_parse("", content) {
        return Some(Format::Lcov);
    }
    if crate::parsers::looks_like_xml(content) {
        let coverage: Vec<u8> = vec![60, 99, 111, 118, 101, 114, 97, 103, 101];
        proof {
            assert(coverage@ =~= seq![60u8, 99u8, 111u8, 118u8, 101u8, 114u8, 97u8, 103u8, 101u8]);
        }
        if crate::parsers::istanbul::contains_seq(content, coverage.as_slice()) {
            return Some(Format::Cobertura);
        }
    }
    None
}

} // verus!
