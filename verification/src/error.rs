//! The library's error type.

use vstd::prelude::*;
use crate::text::concat_str;

verus! {

#[verifier::external_type_specification]
#[verifier::external_body]
pub struct ExIoError(std::io::Error);

/// Everything that can stop a scan.
#[derive(Debug)]
pub enum ScanError {
    /// The scan was cancelled by the user.
    Cancelled,
    /// The output folder is inside (or equal to) a scanned project folder.
    OutputInsideInput(String),
    /// No Ableton projects were found under the given folder.
    NoProjectsFound(String),
    /// No sample category was selected.
    NoCategoriesSelected,
    /// The path does not exist.
    PathNotFound(String),
    /// The path is not a directory.
    NotADirectory(String),
    /// The taxonomy file is malformed.
    BadTaxonomy(String),
    /// An I/O error at a path.
    Io { path: String, source: std::io::Error },
    /// The project's XML could not be read.
    Xml { path: String, message: String },
    /// The project file could not be decompressed.
    Gzip { path: String, message: String },
    /// A configuration error.
    Config(String),
    /// Anything else.
    Other(String),
}

/// `std::io::Error`'s `Display` text. It comes from the operating system, so
/// nothing is claimed of it.
#[verifier::external_body]
fn io_error_text(e: &std::io::Error) -> String {
    e.to_string()
}

impl ScanError {
    /// An I/O error at `path`.
    pub fn io(path: String, source: std::io::Error) -> (r: ScanError)
        ensures
            r matches ScanError::Io { path: p, source: s } && p == path && s == source,
    {
        ScanError::Io { path, source }
    }

    /// The message shown to the user (the error's display text).
    pub fn message(&self) -> (r: String)
        ensures
            match self {
                ScanError::Cancelled => r@ == "scan was cancelled by user"@,
                ScanError::OutputInsideInput(p) => r@
                    == "output folder cannot be inside (or equal to) a scanned project folder: "@
                    + p@,
                ScanError::NoProjectsFound(p) => r@ == "no Ableton projects found under: "@ + p@,
                ScanError::NoCategoriesSelected => r@
                    == "at least one sample type must be selected"@,
                ScanError::PathNotFound(p) => r@ == "path does not exist: "@ + p@,
                ScanError::NotADirectory(p) => r@ == "path is not a directory: "@ + p@,
                ScanError::BadTaxonomy(m) => r@ == "taxonomy file is malformed: "@ + m@,
                ScanError::Io { path, .. } => exists|t: Seq<char>| r@ == "I/O error at "@ + path@ + ": "@ + t,
                ScanError::Xml { path, message } => r@ == "XML parse error in "@ + path@ + ": "@
                    + message@,
                ScanError::Gzip { path, message } => r@ == "gzip decompression failed in "@ + path@
                    + ": "@ + message@,
                ScanError::Config(m) => r@ == "configuration error: "@ + m@,
                ScanError::Other(m) => r@ == m@,
            },
    {
        match self {
            ScanError::Cancelled => String::from_str("scan was cancelled by user"),
            ScanError::OutputInsideInput(p) => concat_str(
                "output folder cannot be inside (or equal to) a scanned project folder: ",
                p.as_str(),
            ),
            ScanError::NoProjectsFound(p) => concat_str(
                "no Ableton projects found under: ",
                p.as_str(),
            ),
            ScanError::NoCategoriesSelected => String::from_str(
                "at least one sample type must be selected",
            ),
            ScanError::PathNotFound(p) => concat_str("path does not exist: ", p.as_str()),
            ScanError::NotADirectory(p) => concat_str("path is not a directory: ", p.as_str()),
            ScanError::BadTaxonomy(m) => concat_str("taxonomy file is malformed: ", m.as_str()),
            ScanError::Io { path, source } => {
                let head = concat_str("I/O error at ", path.as_str());
                let with_colon = concat_str(head.as_str(), ": ");
                let text = io_error_text(source);
                let r = concat_str(with_colon.as_str(), text.as_str());
                assert(r@ == "I/O error at "@ + path@ + ": "@ + text@);
                r
            },
            ScanError::Xml { path, message } => {
                let a = concat_str("XML parse error in ", path.as_str());
                let b = concat_str(a.as_str(), ": ");
                concat_str(b.as_str(), message.as_str())
            },
            ScanError::Gzip { path, message } => {
                let a = concat_str("gzip decompression failed in ", path.as_str());
                let b = concat_str(a.as_str(), ": ");
                concat_str(b.as_str(), message.as_str())
            },
            ScanError::Config(m) => concat_str("configuration error: ", m.as_str()),
            ScanError::Other(m) => m.clone(),
        }
    }
}

} // verus!
