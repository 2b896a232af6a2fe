//! Proof-carrying full planning: the standing, counterexample and session
//! vocabulary, and the policy session that walks an admitted policy.

use vstd::prelude::*;

pub mod closure;
pub mod session;

verus! {

/// Why a verification report stands where it does.
#[derive(Clone, Copy, Debug, PartialEq, Eq)]
pub enum StandingReason {
    NoReplay,
    ConvergenceLimit,
    DependencyMissing,
    MockedValidator,
    ConstraintViolation,
    PolicyNotClosed,
    ObservationIncomplete,
    OutcomeNotAdmitted,
    VerifierDisagreement,
    ResourceLimit,
}

/// What a policy counterexample shows.
#[derive(Clone, Copy, Debug, PartialEq, Eq)]
pub enum PolicyCounterexampleKind {
    UnknownState,
    MissingDecision,
    ProbabilityMass,
    UnknownSuccessor,
    BellmanResidual,
    UnsafeThreshold,
    RewardThreshold,
    StructuralMismatch,
}

/// One counterexample found while verifying a policy.
#[derive(Clone, Debug, PartialEq, Eq)]
pub struct PolicyCounterexample {
    pub kind: PolicyCounterexampleKind,
    pub state: Option<usize>,
    pub message: String,
}

/// Where a policy session stands.
#[derive(Clone, Copy, Debug, PartialEq, Eq, Structural)]
pub enum PolicySessionPhase {
    Created,
    Ready,
    ActionSelected,
    AwaitingObservation,
    ObservationRequired,
    Drifted,
    Blocked,
    Closed,
}

/// A snapshot of a policy session.
#[derive(Clone, Debug, PartialEq, Eq)]
pub struct PolicySessionStatus {
    pub phase: PolicySessionPhase,
    pub current_state: Option<usize>,
    pub remaining: Option<usize>,
    pub selected_action: Option<String>,
    pub policy_valid: bool,
    pub predecessor_receipt: Option<String>,
}

/// Why a policy session refused an operation.
#[derive(Clone, Debug, PartialEq, Eq)]
pub enum PolicySessionError {
    /// Policy synthesis failed.
    Planning(String),
    /// The initial state is ambiguous: an explicit observation is required.
    ObservationIncomplete,
    /// The state is not part of the admitted policy model.
    UnknownState(usize),
    /// The state is not an admitted outcome of the selected action.
    OutcomeNotAdmitted { state: usize, action: String },
    /// The policy has no decision for the state at this remaining horizon.
    PolicyNotClosed { state: usize, remaining: Option<usize> },
    /// The operation is invalid in the session's phase.
    InvalidPhase(PolicySessionPhase),
    /// A problem section could not be rewritten.
    Rewrite(String),
}

/// Where a policy verification report stands, as far as the verifier
/// decides it: alive as far as it was checked, or blocked.
#[derive(Clone, Copy, Debug, PartialEq, Eq)]
pub enum Standing {
    PartialAlive,
    Blocked,
}

/// The verdict of a policy verification: valid when the policy is
/// structurally sound, closed, converged and within every hard risk
/// constraint; a valid policy stands partially alive (nothing was
/// replayed), an invalid one blocked, for the first of these that failed
/// in the order convergence, constraints, closure (and otherwise for a
/// structural disagreement).
pub open spec fn verdict_of(structural: bool, closure: bool, converged: bool, constraints_ok: bool) -> (
    bool,
    Standing,
    StandingReason,
) {
    let valid = structural && closure && converged && constraints_ok;
    if valid {
        (true, Standing::PartialAlive, StandingReason::NoReplay)
    } else if !converged {
        (false, Standing::Blocked, StandingReason::ConvergenceLimit)
    } else if !constraints_ok {
        (false, Standing::Blocked, StandingReason::ConstraintViolation)
    } else if !closure {
        (false, Standing::Blocked, StandingReason::PolicyNotClosed)
    } else {
        (false, Standing::Blocked, StandingReason::VerifierDisagreement)
    }
}

/// The validity, standing and reason of a policy verification report (see
/// [`verdict_of`]).
pub fn policy_verdict(structural: bool, closure: bool, converged: bool, constraints_ok: bool) -> (r: (
    bool,
    Standing,
    StandingReason,
))
    ensures
        r == verdict_of(structural, closure, converged, constraints_ok),
{
    let valid = structural && closure && converged && constraints_ok;
    if valid {
        (true, Standing::PartialAlive, StandingReason::NoReplay)
    } else if !converged {
        (false, Standing::Blocked, StandingReason::ConvergenceLimit)
    } else if !constraints_ok {
        (false, Standing::Blocked, StandingReason::ConstraintViolation)
    } else if !closure {
        (false, Standing::Blocked, StandingReason::PolicyNotClosed)
    } else {
        (false, Standing::Blocked, StandingReason::VerifierDisagreement)
    }
}

} // verus!
