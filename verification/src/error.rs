//! Errors of the library. Errors of the outside world (files, TOML, JSON) are
//! carried as their text.

use crate::text::{cat, cat3, cat4};
use vstd::prelude::*;

verus! {

/// Errors produced by the library.
#[derive(Debug)]
pub enum Error {
    /// The config file could not be read from disk.
    ConfigRead {
        /// Path that was attempted.
        path: String,
        /// What went wrong.
        source: String,
    },
    /// The config file was not valid TOML or did not match the schema.
    ConfigParse(String),
    /// The config parsed but failed semantic validation.
    Validation(String),
    /// A required base directory could not be determined.
    MissingDir(String),
    /// A backend (local/webdav/git) operation failed.
    Backend(String),
    /// The on-disk index could not be (de)serialized.
    Index(String),
    /// A generic I/O error.
    Io(String),
}

impl Error {
    /// The message shown to the user.
    pub open spec fn text(&self) -> Seq<char> {
        match self {
            Error::ConfigRead { path, source } => "failed to read config at "@ + path@ + ": "@
                + source@,
            Error::ConfigParse(e) => "failed to parse config: "@ + e@,
            Error::Validation(e) => "invalid config: "@ + e@,
            Error::MissingDir(d) => "could not determine "@ + d@ + " directory"@,
            Error::Backend(e) => "backend error: "@ + e@,
            Error::Index(e) => "index error: "@ + e@,
            Error::Io(e) => e@,
        }
    }

    /// The message shown to the user.
    pub fn message(&self) -> (out: String)
        ensures
            out@ == self.text(),
    {
        match self {
            Error::ConfigRead { path, source } => cat4(
                "failed to read config at ",
                path.as_str(),
                ": ",
                source.as_str(),
            ),
            Error::ConfigParse(e) => cat("failed to parse config: ", e.as_str()),
            Error::Validation(e) => cat("invalid config: ", e.as_str()),
            Error::MissingDir(d) => cat3("could not determine ", d.as_str(), " directory"),
            Error::Backend(e) => cat("backend error: ", e.as_str()),
            Error::Index(e) => cat("index error: ", e.as_str()),
            Error::Io(e) => e.clone(),
        }
    }
}

} // verus!
