//! The failures that the later stages of the pipeline report.

use crate::event::StreamError;
use vstd::prelude::*;

verus! {

/// Why a stage could not go on. Every failure is handed to the caller, who
/// decides what to do; no stage retries or recovers on its own.
#[derive(Clone, Copy, Debug, PartialEq, Eq, Structural)]
pub enum ReplayError {
    /// An earlier stage could not deliver its next event.
    Stream(StreamError),
    /// A payload reached a stage that does not accept it, such as a depth
    /// update after reconciliation.
    UnexpectedPayload,
    /// A trade names a symbol that has no known book.
    UnknownSymbol,
    /// A trade names a symbol whose book has no ask to price it with.
    NoAskPrice,
    /// The quantity that the cash can pay for is not defined at price zero.
    ZeroPrice,
    /// A balance would leave the range of the ledger's numbers.
    Overflow,
}

} // verus!
