//! Deferred acks kept on disk: what is stored of a consumer besides the
//! sequence numbers themselves.

use vstd::prelude::*;

verus! {

/// The range of a consumer's outstanding acks, loaded in bulk at startup.
#[derive(Debug, Clone, Copy, PartialEq, Eq, Structural)]
pub struct StateSummary {
    pub consumer_id: u32,
    pub generation: u32,
    pub count: u32,
    pub min_seq: u64,
    pub max_seq: u64,
}

/// What becomes of a consumer's row when acks have been confirmed.
#[derive(Debug, Clone, Copy, PartialEq, Eq, Structural)]
pub enum StateWrite {
    /// Nothing is outstanding: delete the row.
    Delete,
    /// Insert the row or replace it.
    Upsert(StateSummary),
}

/// The row to write after a purge, in the transaction that deletes the
/// confirmed numbers. A consumer with nothing outstanding keeps no row, so
/// that startup loads no dead ones.
pub fn state_after_purge(summary: StateSummary) -> (r: StateWrite)
    ensures
        r == (if summary.count == 0 {
            StateWrite::Delete
        } else {
            StateWrite::Upsert(summary)
        }),
{
    if summary.count == 0 {
        StateWrite::Delete
    } else {
        StateWrite::Upsert(summary)
    }
}

} // verus!
