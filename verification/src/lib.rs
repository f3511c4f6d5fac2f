//! A personal task-recall library: named banks of recurring tasks, a bounded
//! undo log of reversible operations, weighted-random recall of stale tasks,
//! and a text codec for the backing files.
#![verifier::loop_isolation(false)]
use vstd::prelude::*;

pub mod bank;
pub mod clock;
pub mod codec;
pub mod config;
pub mod parser;
pub mod last;
pub mod select;
pub mod store;
pub mod task;
pub mod undobank;

verus! {

} // verus!
