//! What the command line gives.

use vstd::prelude::*;

verus! {

/// The options of one run.
#[derive(Debug, Clone, PartialEq, Eq)]
pub struct InputOpts {
    /// The path to the folder that holds the manual.
    pub input_path: String,
    /// Where to write the result; the standard output where there is none.
    pub output_path: Option<String>,
    /// Whether to check the pages without writing anything.
    pub do_not_emit: bool,
}

} // verus!
