//! An arena-backed tree of frames that records where asynchronous work is
//! logically suspended, with per-thread activation contexts, lazy linking
//! into the tree, ancestor walks and tree rendering.
use vstd::prelude::*;

pub mod frame;

pub use frame::{Context, Forest, Frame, Kind, Location, Scope, Slot, TaskEvent, TreeLine};

verus! {

} // verus!
