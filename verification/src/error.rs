//! What can go wrong in a run.

use vstd::prelude::*;

verus! {

/// Why a run ended without a result.
#[derive(Debug)]
pub enum Error {
    /// The command line does not name exactly a term and a file. Holds the
    /// message for the user.
    InvalidArguments(&'static str),
    /// The file could not be read. Holds the cause as the reader reported it.
    IoFailure(String),
}

} // verus!
