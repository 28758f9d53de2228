//! Invocation options, as plain values.

use vstd::prelude::*;

verus! {

/// How a run was invoked: the pattern, and where the input comes from
/// (a file name, `-` for standard input, or a literal string).
#[derive(Debug)]
pub struct Config {
    pub verbosity: u64,
    pub input_file: Option<String>,
    pub pattern: String,
    pub input_string: Option<String>,
}

impl Config {
    pub fn new(
        verbosity: u64,
        input_file: Option<String>,
        pattern: String,
        input_string: Option<String>,
    ) -> (r: Config)
        ensures
            r.verbosity == verbosity,
            r.input_file == input_file,
            r.pattern == pattern,
            r.input_string == input_string,
    {
        Config { verbosity, input_file, pattern, input_string }
    }
}

} // verus!
