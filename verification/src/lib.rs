//! A reduced rollup-style node that maintains two authenticated key/value
//! states — a fast sequencer state and a slow, authoritative
//! data-availability (DA) state — and reconciles them: mismatches trigger a
//! sequencer re-alignment, DA reorganisations roll both states back through a
//! block-indexed snapshot store, and a monotone finalized root is never
//! reverted.

use vstd::prelude::*;

pub mod driver;
pub mod hashes;
pub mod node;
pub mod storage;
pub mod state_machine;
pub mod codec;
pub mod merkle;

verus! {

/// Every failure of the node is fatal; these are the kinds it reports.
#[derive(Clone, Copy, Debug, PartialEq, Eq, Structural)]
pub enum NodeError {
    /// A malformed sequencer or DA line.
    Parse,
    /// A protocol violation: a revert deeper than the current head or below
    /// the finalized block, a missing DA line, a REORG directive where a
    /// batch was required, or a state mismatch that re-alignment could not
    /// repair.
    Protocol,
    /// A snapshot missing on revert, or a failure of the underlying store.
    Storage,
}

} // verus!
