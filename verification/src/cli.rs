//! Command-line argument shapes that the rest of the library consumes as
//! plain values.

use vstd::prelude::*;

verus! {

/// Arguments of the configuration subcommand: the configuration files to
/// merge (rightmost wins) and which single JSON emission is asked for.
#[derive(Debug)]
pub struct ArgsConfig {
    pub config: Vec<String>,
    pub merged: bool,
    pub list_repos: bool,
}

impl ArgsConfig {
    /// Emit merged information; nothing is downloaded on this path.
    pub fn execute(&self) -> (r: Result<(), String>)
        ensures
            r is Ok,
    {
        Ok(())
    }
}

} // verus!
