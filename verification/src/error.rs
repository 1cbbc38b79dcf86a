//! The library's error type: what can go wrong while parsing coverage
//! input, storing it, or querying the store.

use vstd::prelude::*;
use vstd::string::StringExecFns;
use crate::text::{spec_u64_string, u64_to_string};

verus! {

/// Everything the library can refuse to do, with what it was given.
#[derive(Debug)]
pub enum CovrsError {
    /// Malformed input that no recovery rule covers.
    Parse(String),
    /// Malformed XML, with the byte position the reader stopped at.
    Xml { position: u64 },
    /// The input matched no registered coverage format.
    UnknownFormat,
    /// A report name that the store does not hold.
    ReportNotFound(String),
    /// A report name that the store already holds, without overwrite.
    DuplicateReport(String),
    /// A query that needs at least one stored report found none.
    NoReports,
    /// A source file path that no stored report mentions.
    UnknownFile(String),
}

/// The rendering of an error, as `message` builds it.
pub open spec fn spec_message(e: &CovrsError) -> Seq<char> {
    match e {
        CovrsError::Parse(s) => ("Parse error: ")@ + s@,
        CovrsError::Xml { position } => ("XML parse error at position ")@ + spec_u64_string(
            *position as nat,
        ),
        CovrsError::UnknownFormat => ("Unknown coverage format")@,
        CovrsError::ReportNotFound(s) => ("Report not found: ")@ + s@,
        CovrsError::DuplicateReport(s) => ("Report '")@ + s@ + (
        "' already exists. Use --name to choose a different name, or delete it first.")@,
        CovrsError::NoReports => ("No reports in database. Run 'covrs ingest' first.")@,
        CovrsError::UnknownFile(s) => ("Source file not found: ")@ + s@,
    }
}

impl CovrsError {
    /// A human-readable description of the error.
    pub fn message(&self) -> (r: String)
        ensures
            r@ == spec_message(self),
    {
        match self {
            CovrsError::Parse(s) => {
                let mut m = ("Parse error: ").to_owned();
                m.append(s.as_str());
                m
            },
            CovrsError::Xml { position } => {
                let mut m = ("XML parse error at position ").to_owned();
                let num = u64_to_string(*position);
                m.append(num.as_str());
                m
            },
            CovrsError::UnknownFormat => ("Unknown coverage format").to_owned(),
            CovrsError::ReportNotFound(s) => {
                let mut m = ("Report not found: ").to_owned();
                m.append(s.as_str());
                m
            },
            CovrsError::DuplicateReport(s) => {
                let mut m = ("Report '").to_owned();
                m.append(s.as_str());
                m.append("' already exists. Use --name to choose a different name, or delete it first.");
                m
            },
            CovrsError::NoReports => ("No reports in database. Run 'covrs ingest' first.").to_owned(),
            CovrsError::UnknownFile(s) => {
                let mut m = ("Source file not found: ").to_owned();
                m.append(s.as_str());
                m
            },
        }
    }
}

} // verus!
