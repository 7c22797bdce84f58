//! Errors surfaced by the consensus core.

use vstd::prelude::*;

verus! {

/// The error kinds of the core.
///
/// The `Fatal*` kinds are unrecoverable: they indicate a divergence between
/// the DAG state and the core, a wall-clock regression, or the core's own
/// proposal being rejected. Callers must treat them as a reason to abort.
#[derive(Clone, Copy, PartialEq, Eq, Structural, Debug)]
pub enum ConsensusError {
    /// A block failed the structural acceptance checks: an ancestor round not
    /// below the block round, or a length beyond the serialization bounds.
    InvalidBlock,
    /// A signal channel that requires at least one receiver has none.
    Shutdown,
    /// Fatal: an ancestor carries a timestamp above the proposal timestamp.
    FatalClockRegression,
    /// Fatal: the proposal parents at the previous round do not reach quorum.
    FatalQuorumMismatch,
    /// Fatal: the core's own new proposal was not accepted as new.
    FatalOwnBlockRejected,
    /// Fatal: the commit index would overflow its counter.
    FatalCommitIndexOverflow,
}

/// Result type of the core's entry points.
pub type ConsensusResult<T> = Result<T, ConsensusError>;

} // verus!
