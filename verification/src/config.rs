//! Validation of the two required invocation values.

use vstd::prelude::*;

verus! {

/// A validated pair of pattern and input string.
#[derive(Debug)]
pub struct Config {
    pub pattern: String,
    pub string: String,
}

/// Accept the options exactly when both the pattern and the string to
/// match were given; otherwise name the missing one.
pub fn parse_options(pattern: Option<String>, string: Option<String>) -> (r: Result<
    Config,
    String,
>)
    ensures
        (r is Ok) == (pattern is Some && string is Some),
        r matches Ok(c) ==> Some(c.pattern) == pattern && Some(c.string) == string,
{
    let pattern = match pattern {
        Some(val) => val,
        None => {
            return Err(String::from_str("Missing pattern. See --help."));
        },
    };
    let string = match string {
        Some(val) => val,
        None => {
            return Err(String::from_str("Missing string to match. See --help."));
        },
    };
    Ok(Config { pattern, string })
}

} // verus!
