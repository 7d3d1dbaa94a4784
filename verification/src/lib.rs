//! A rated snapshot indexer: time-sortable identifiers, a bounded
//! retention log of immutable score snapshots, range queries over the
//! log, and the bookkeeping of a periodic indexing round.

use vstd::prelude::*;

pub mod calculator;
pub mod config;
pub mod ident;
pub mod indexer;
pub mod lens;
pub mod round;
pub mod store;
pub mod task;

verus! {

/// The errors surfaced by the indexer's operations.
#[derive(Clone, Copy, Debug, PartialEq, Eq)]
pub enum Error {
    /// The caller failed an access check; nothing was changed.
    Unauthorized,
    /// A remote source could not be reached or answered garbage; the
    /// round was aborted and no snapshot was committed.
    TransportError,
    /// A string is not a well-formed identifier encoding.
    MalformedId,
    /// A query hit an empty store.
    NoData,
    /// A new round was requested while one is still running.
    RoundInProgress,
}

} // verus!
