//! The tool's configuration: where the storage directory lives, whether to
//! chat while working, and the default recall cutoff.
use vstd::prelude::*;

verus! {

/// The configuration read from the configuration file, with a default for
/// every missing field.
pub struct Config {
    /// The storage directory of the four backing files.
    pub task_path: String,
    /// Whether diagnostic output is wanted.
    pub verbose: bool,
    /// Seconds a record must have rested to be eligible for random recall.
    pub cutoff: u64,
}

/// The default recall cutoff: one day.
pub fn default_cutoff() -> (r: u64)
    ensures
        r == 86400,
{
    60 * 60 * 24
}

/// Diagnostics are off by default.
pub fn default_verbose() -> (r: bool)
    ensures
        !r,
{
    false
}

/// Relies on shellexpand::tilde: the leading tilde is replaced by the
/// user's home directory. The result depends on the environment, so nothing
/// is promised of it.
#[verifier::external_body]
pub fn default_path() -> String {
    shellexpand::tilde("~/.tasks").into_owned()
}

impl Default for Config {
    /// The configuration used when no configuration file is readable.
    fn default() -> (r: Config)
        ensures
            !r.verbose,
            r.cutoff == 86400,
    {
        Config { task_path: default_path(), verbose: default_verbose(), cutoff: default_cutoff() }
    }
}

} // verus!
