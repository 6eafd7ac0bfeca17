//! The command-line configuration carried into the library.

use vstd::prelude::*;

verus! {

/// What was asked on the command line: the directory to scan, an optional
/// search term, and an optional report destination.
#[derive(Clone, Debug, PartialEq, Eq)]
pub struct Cli {
    pub directory: String,
    pub search_term: Option<String>,
    pub report_path: Option<String>,
}

} // verus!
