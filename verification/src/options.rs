//! The options of a publishing run.

use vstd::prelude::*;
use vstd::string::StringExecFns;

verus! {

/// The options of a publishing run: the filesystem path of the project
/// root, defaulting to the current directory.
#[derive(Debug, Clone, PartialEq)]
pub struct Options {
    pub path: String,
}

impl Options {
    /// Options naming `path` as the project root.
    pub fn new(path: String) -> (r: Options)
        ensures
            r.path@ == path@,
    {
        Options { path }
    }

    /// The fallback options: the project root is the current directory.
    pub fn current_dir() -> (r: Options)
        ensures
            r.path@ == "."@,
    {
        Options { path: String::from_str(".") }
    }
}

} // verus!
