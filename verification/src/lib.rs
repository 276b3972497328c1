//! Replay of a recorded, partially ordered history of collaborative text
//! edits onto a shared CRDT document.
//!
//! The trace is a directed acyclic graph of edit transactions.  The replay
//! engine walks the graph in the order given, pulls each transaction's parent
//! document states from a reference-counted store, merges them, applies the
//! transaction's text splices, and finally checks the produced text against
//! the expected final content.
use vstd::prelude::*;

pub mod doc;
pub mod history;
pub mod replay;
pub mod store;

verus! {

} // verus!
