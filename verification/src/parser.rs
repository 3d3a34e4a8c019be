//! The cooperative parsers.
//!
//! A parser is written as a straight-line loop over the stream's pull
//! primitives; `poll` runs it until the stream can no longer satisfy the
//! pending read, and the dispatcher resumes it after new bytes arrive. This
//! explicit resumable form carries the same suspension contract as a
//! coroutine-based one: a suspended parser is woken exactly when its pending
//! read can make progress.

pub mod read;
pub mod readline;

use vstd::prelude::*;

verus! {

/// Why a parser's `poll` returned.
#[derive(Clone, Copy, Debug, PartialEq, Eq, Structural)]
pub enum PollOutcome {
    /// Suspended: the pending read needs bytes that have not arrived.
    Pending,
    /// The parser ran to completion (stream ended).
    Done,
    /// The flow stalled (no progress will ever be possible): flow-fatal.
    Failed,
}

} // verus!
