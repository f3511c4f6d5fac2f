//! The command surface as plain data, and the decisions the entry point
//! takes over it. Reading the actual command line happens outside the
//! library; these types carry what was read.
use vstd::prelude::*;

verus! {

/// Arguments of the add command.
pub struct AddArgs {
    pub description: Option<String>,
    pub priority: u16,
    pub name: Vec<String>,
    pub tag: Vec<String>,
}

/// Arguments of the edit command.
pub struct EditArgs {
    pub name: Option<String>,
    pub description: Option<String>,
    pub priority: Option<u16>,
    pub rtag: Option<Vec<String>>,
    pub atag: Option<Vec<String>>,
    pub stag: Option<Vec<String>>,
    pub identifier: Vec<String>,
}

/// Arguments of the list command.
pub struct ListArgs {
    pub tags: Option<Vec<String>>,
    pub ntags: Option<Vec<String>>,
    pub terms: Vec<String>,
}

/// One invocation's command.
pub enum Commands {
    /// Add a new task.
    Add(AddArgs),
    /// Print the last viewed task.
    Last,
    /// Produce a random task, with a bias for older tasks.
    Random { tags: Option<Vec<String>>, ntags: Option<Vec<String>>, force: bool, n: u8 },
    /// Edit an existing task.
    Edit(EditArgs),
    /// Complete a round of the task, without closing it.
    Done { terms: Vec<String> },
    /// Complete and close a task.
    Close { terms: Vec<String> },
    /// List pending tasks.
    List(ListArgs),
    /// Revert the most recent undo entry.
    Undo,
}

/// The whole command line.
pub struct Cli {
    pub debug: bool,
    pub force: bool,
    pub tags: Option<Vec<String>>,
    pub ntags: Option<Vec<String>>,
    pub command: Option<Commands>,
}

impl Cli {
    /// The top-level flags force an immediate random draw, regardless of
    /// any subcommand.
    pub fn forces_random(&self) -> (r: bool)
        ensures
            r == (self.force || self.tags is Some || self.ntags is Some),
    {
        self.force || self.tags.is_some() || self.ntags.is_some()
    }
}

/// The cutoff a random draw runs with: forcing drops it to zero so that
/// freshly minted tasks can come out.
pub fn effective_cutoff(force: bool, configured: u64) -> (r: u64)
    ensures
        r == if force {
            0u64
        } else {
            configured
        },
{
    if force {
        0
    } else {
        configured
    }
}

} // verus!
