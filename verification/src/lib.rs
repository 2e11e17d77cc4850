//! A small text search: given a term and a document, the lines of the document
//! that hold the term, case-sensitively or not.
//!
//! The library computes on values and leaves reading and printing to its
//! caller: [`Config::build`] resolves the tokens of a command line, [`filter`]
//! picks the lines, and [`run`] joins the two for a document that has been
//! read, or could not be.

use vstd::prelude::*;

pub mod config;
pub mod encoding;
pub mod error;
pub mod lines;
pub mod lowercase;
pub mod pattern;
pub mod search;
pub mod subsequence;

pub use config::Config;
pub use error::Error;
pub use search::{filter, search, search_case_insensitive};

verus! {

/// Runs a search as `config` asks, on what came of reading its file: `loaded`
/// holds the text of the file, or the cause for which it could not be read.
/// A text is filtered by the term and mode of `config`, and the lines kept are
/// handed back for printing, one by one and in order. A failed read ends the
/// run with that cause; nothing is searched then.
pub fn run<'a>(config: &Config, loaded: &'a Result<String, String>) -> (outcome: Result<
    Vec<&'a str>,
    Error,
>)
    ensures
        match *loaded {
            Ok(text) => outcome matches Ok(lines) && search::texts(lines@) == search::selected_lines(
                config@.search_for,
                text@,
                config@.ignore_case,
            ) && subsequence::is_subsequence(search::texts(lines@), lines::lines_of(text@)),
            Err(cause) => outcome matches Err(Error::IoFailure(carried)) && carried@ == cause@,
        },
{
    match loaded {
        Ok(text) => Ok(filter(config.search_for(), text.as_str(), config.ignore_case())),
        Err(cause) => Err(Error::IoFailure(cause.clone())),
    }
}

} // verus!
