//! The last-pointer: a single-slot memo of the most recently uniquely
//! resolved task id, backing the `last` keyword.
use vstd::prelude::*;

verus! {

/// The optional id of the most recently uniquely resolved record.
pub struct Last {
    pub last: Option<String>,
}

impl View for Last {
    type V = Option<Seq<char>>;

    open spec fn view(&self) -> Option<Seq<char>> {
        match self.last {
            Some(id) => Some(id@),
            None => None,
        }
    }
}

impl Default for Last {
    /// An empty memo.
    fn default() -> (r: Last)
        ensures
            r@ is None,
    {
        Last { last: None }
    }
}

} // verus!
