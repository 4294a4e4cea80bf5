//! The decisions of a transaction scope. A command runs either inside a
//! transaction that its caller supplied, which the caller then commits, or
//! inside one of its own, which is committed and, on a conflict reported by
//! the store, run again from the start with a fresh transaction, a bounded
//! number of times.
use vstd::prelude::*;
use crate::record::CmdError;

verus! {

/// How many times a scope of its own runs its body at most.
pub const MAX_ATTEMPTS: u32 = 10;

/// How one run of the body and its commit ended.
#[derive(Debug, Clone, Copy, PartialEq, Eq, Structural)]
pub enum TxnOutcome {
    /// The body succeeded and the commit went through (or, for a borrowed
    /// transaction, the body succeeded).
    Committed,
    /// The store reported a conflict.
    Conflict,
    /// The body failed with an error of its own.
    Failed,
}

/// What the scope does next.
#[derive(Debug, Clone, Copy, PartialEq, Eq, Structural)]
pub enum ScopeAction {
    /// Hand the result to the caller.
    Finish,
    /// Run the body again in a fresh transaction.
    Retry,
    /// Report a transient conflict to the caller.
    GiveUp,
}

/// The step after run number `attempt` (from 0) ended with `outcome`.
pub fn next_action(borrowed: bool, attempt: u32, outcome: TxnOutcome) -> (r: ScopeAction)
    ensures
        outcome != TxnOutcome::Conflict ==> r == ScopeAction::Finish,
        outcome == TxnOutcome::Conflict && borrowed ==> r == ScopeAction::GiveUp,
        outcome == TxnOutcome::Conflict && !borrowed ==> (r == ScopeAction::Retry <==> attempt
            + 1 < MAX_ATTEMPTS),
        outcome == TxnOutcome::Conflict ==> r == next_action_spec(borrowed, attempt),
{
    match outcome {
        TxnOutcome::Committed | TxnOutcome::Failed => ScopeAction::Finish,
        TxnOutcome::Conflict => {
            if !borrowed && attempt < MAX_ATTEMPTS - 1 {
                ScopeAction::Retry
            } else {
                ScopeAction::GiveUp
            }
        },
    }
}

/// The error a scope that gave up reports.
pub fn give_up_error() -> (r: CmdError)
    ensures
        r == CmdError::TransientConflict,
{
    CmdError::TransientConflict
}

/// A scope of its own retries at most `MAX_ATTEMPTS - 1` times: from the
/// last attempt on, a conflict is never retried.
pub proof fn lemma_retries_bounded(attempt: u32)
    requires
        attempt + 1 >= MAX_ATTEMPTS,
    ensures
        forall|b: bool| #[trigger] next_action_spec(b, attempt) != ScopeAction::Retry,
{
}

/// What `next_action` decides on a conflict.
pub open spec fn next_action_spec(borrowed: bool, attempt: u32) -> ScopeAction {
    if !borrowed && attempt + 1 < MAX_ATTEMPTS {
        ScopeAction::Retry
    } else {
        ScopeAction::GiveUp
    }
}

} // verus!
