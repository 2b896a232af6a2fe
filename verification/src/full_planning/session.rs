//! A policy session: walks an admitted probabilistic policy one decision at
//! a time, admitting only outcomes the policy foresaw. Planning never
//! actuates: the session selects actions and records observations.

use vstd::prelude::*;
use vstd::string::StringExecFns;
use super::{PolicySessionError, PolicySessionPhase, PolicySessionStatus};
use crate::text::{chars_of, join_sp, join_spaces, lower, lower_char, lower_chars, string_from, views};

verus! {

/// One state of the policy model.
#[derive(Clone, Copy, Debug, PartialEq, Eq)]
pub struct PolicyState {
    pub id: usize,
    pub goal: bool,
}

/// One policy decision: in `state`, with `remaining` steps of horizon left
/// (`None` for an unbounded horizon), take `action args...`, whose admitted
/// outcomes are the successor states listed.
#[derive(Debug, PartialEq, Eq)]
pub struct PolicyDecision {
    pub state: usize,
    pub remaining: Option<usize>,
    pub action: String,
    pub args: Vec<String>,
    pub outcomes: Vec<usize>,
}

/// What a session reads of a synthesized policy: its states, its
/// decisions, its horizon, and the initial state when the initial
/// distribution is a single certain state.
#[derive(Debug, PartialEq, Eq)]
pub struct PolicyModel {
    pub states: Vec<PolicyState>,
    pub policy: Vec<PolicyDecision>,
    pub horizon: Option<usize>,
    pub certain_initial: Option<usize>,
}

/// The session.
#[derive(Debug)]
pub struct PolicySession {
    pub model: PolicyModel,
    /// Whether the verifier admitted the policy.
    pub verified: bool,
    pub current_state: Option<usize>,
    pub remaining: Option<usize>,
    pub selected: Option<PolicyDecision>,
    pub phase: PolicySessionPhase,
    pub predecessor_receipt: Option<String>,
}

/// What a decision says, as plain values.
#[verifier::ext_equal]
pub struct DecisionView {
    pub state: usize,
    pub remaining: Option<usize>,
    pub action: Seq<char>,
    pub args: Seq<Seq<char>>,
    pub outcomes: Seq<usize>,
}

impl View for PolicyDecision {
    type V = DecisionView;

    open spec fn view(&self) -> DecisionView {
        DecisionView {
            state: self.state,
            remaining: self.remaining,
            action: self.action@,
            args: views(self.args@),
            outcomes: self.outcomes@,
        }
    }
}

/// What a policy model holds, as plain values.
#[verifier::ext_equal]
pub struct ModelView {
    pub states: Seq<PolicyState>,
    pub policy: Seq<DecisionView>,
    pub horizon: Option<usize>,
    pub certain_initial: Option<usize>,
}

impl View for PolicyModel {
    type V = ModelView;

    open spec fn view(&self) -> ModelView {
        ModelView {
            states: self.states@,
            policy: decision_views(self.policy@),
            horizon: self.horizon,
            certain_initial: self.certain_initial,
        }
    }
}

/// Where a session stands, as plain values.
#[verifier::ext_equal]
pub struct SessionView {
    pub model: ModelView,
    pub verified: bool,
    pub current_state: Option<usize>,
    pub remaining: Option<usize>,
    pub selected: Option<DecisionView>,
    pub phase: PolicySessionPhase,
    pub predecessor_receipt: Option<Seq<char>>,
}

impl View for PolicySession {
    type V = SessionView;

    open spec fn view(&self) -> SessionView {
        SessionView {
            model: self.model@,
            verified: self.verified,
            current_state: self.current_state,
            remaining: self.remaining,
            selected: match self.selected {
                Some(d) => Some(d@),
                None => None,
            },
            phase: self.phase,
            predecessor_receipt: match self.predecessor_receipt {
                Some(p) => Some(p@),
                None => None,
            },
        }
    }
}

/// The views of a list of decisions.
pub open spec fn decision_views(p: Seq<PolicyDecision>) -> Seq<DecisionView> {
    p.map_values(|d: PolicyDecision| d@)
}

/// `action args...`, space separated.
pub open spec fn action_text(d: DecisionView) -> Seq<char> {
    join_sp(seq![d.action] + d.args)
}

/// The first state of the model with id `id`.
pub open spec fn goal_of(states: Seq<PolicyState>, id: usize) -> Option<bool>
    decreases states.len(),
{
    if states.len() == 0 {
        None
    } else if states[0].id == id {
        Some(states[0].goal)
    } else {
        goal_of(states.drop_first(), id)
    }
}

/// Index of the first decision for `state` at `remaining`.
pub open spec fn decision_index(policy: Seq<DecisionView>, state: usize, remaining: Option<
    usize,
>) -> int
    decreases policy.len(),
{
    if policy.len() == 0 {
        -1
    } else if policy[0].state == state && policy[0].remaining == remaining {
        0
    } else {
        let k = decision_index(policy.drop_first(), state, remaining);
        if k < 0 {
            -1
        } else {
            k + 1
        }
    }
}

/// One step less of horizon, never below zero.
pub open spec fn decrement(r: Option<usize>) -> Option<usize> {
    match r {
        Some(v) => Some(if v == 0 {
            0usize
        } else {
            (v - 1) as usize
        }),
        None => None,
    }
}

/// The policy still has an answer for where the session stands.
pub open spec fn still_valid(s: SessionView) -> bool {
    match s.current_state {
        None => false,
        Some(state) => goal_of(s.model.states, state) == Some(true) || s.remaining == Some(0usize)
            || decision_index(s.model.policy, state, s.remaining) >= 0,
    }
}

/// Everything but the walk's position is unchanged.
pub open spec fn same_model(a: SessionView, b: SessionView) -> bool {
    a.model == b.model && a.verified == b.verified && a.predecessor_receipt == b.predecessor_receipt
}

pub(crate) proof fn lemma_decision_index_range(policy: Seq<DecisionView>, state: usize, remaining: Option<usize>)
    ensures
        -1 <= decision_index(policy, state, remaining) < policy.len(),
        decision_index(policy, state, remaining) >= 0 ==> policy[decision_index(
            policy,
            state,
            remaining,
        )].state == state && policy[decision_index(policy, state, remaining)].remaining
            == remaining,
    decreases policy.len(),
{
    if policy.len() > 0 {
        lemma_decision_index_range(policy.drop_first(), state, remaining);
    }
}

pub(crate) fn find_goal(states: &Vec<PolicyState>, id: usize) -> (g: Option<bool>)
    ensures
        g == goal_of(states@, id),
{
    let mut i: usize = 0;
    proof {
        assert(states@.skip(0) =~= states@);
    }
    while i < states.len()
        invariant
            i <= states@.len(),
            goal_of(states@, id) == goal_of(states@.skip(i as int), id),
        decreases states@.len() - i,
    {
        proof {
            assert(states@.skip(i as int).drop_first() =~= states@.skip(i + 1));
        }
        if states[i].id == id {
            return Some(states[i].goal);
        }
        i = i + 1;
    }
    None
}

fn find_decision(policy: &Vec<PolicyDecision>, state: usize, remaining: Option<usize>) -> (r: Option<
    usize,
>)
    ensures
        match r {
            Some(i) => i as int == decision_index(decision_views(policy@), state, remaining),
            None => decision_index(decision_views(policy@), state, remaining) == -1,
        },
{
    let ghost all = decision_views(policy@);
    let mut i: usize = 0;
    proof {
        assert(all.skip(0) =~= all);
    }
    while i < policy.len()
        invariant
            i <= policy@.len(),
            all == decision_views(policy@),
            decision_index(all, state, remaining) == if decision_index(
                all.skip(i as int),
                state,
                remaining,
            ) < 0 {
                -1
            } else {
                decision_index(all.skip(i as int), state, remaining) + i
            },
        decreases policy@.len() - i,
    {
        proof {
            assert(all.skip(i as int).drop_first() =~= all.skip(i + 1));
            assert(all.skip(i as int)[0] == policy@[i as int]@);
        }
        if policy[i].state == state && policy[i].remaining == remaining {
            return Some(i);
        }
        i = i + 1;
    }
    None
}

fn clone_strings(v: &Vec<String>) -> (c: Vec<String>)
    ensures
        c@ == v@,
{
    let mut c: Vec<String> = Vec::new();
    let mut i: usize = 0;
    while i < v.len()
        invariant
            i <= v@.len(),
            c@ == v@.subrange(0, i as int),
        decreases v@.len() - i,
    {
        c.push(v[i].clone());
        i = i + 1;
        assert(c@ =~= v@.subrange(0, i as int));
    }
    assert(v@.subrange(0, v@.len() as int) =~= v@);
    c
}

fn clone_usizes(v: &Vec<usize>) -> (c: Vec<usize>)
    ensures
        c@ == v@,
{
    let mut c: Vec<usize> = Vec::new();
    let mut i: usize = 0;
    while i < v.len()
        invariant
            i <= v@.len(),
            c@ == v@.subrange(0, i as int),
        decreases v@.len() - i,
    {
        c.push(v[i]);
        i = i + 1;
        assert(c@ =~= v@.subrange(0, i as int));
    }
    assert(v@.subrange(0, v@.len() as int) =~= v@);
    c
}

impl PolicyDecision {
    /// A copy that says the same.
    pub fn copy(&self) -> (c: Self)
        ensures
            c@ == self@,
    {
        PolicyDecision {
            state: self.state,
            remaining: self.remaining,
            action: self.action.clone(),
            args: clone_strings(&self.args),
            outcomes: clone_usizes(&self.outcomes),
        }
    }
}

impl PolicyModel {
    /// A copy that says the same.
    pub fn copy(&self) -> (c: Self)
        ensures
            c@ == self@,
    {
        let mut states: Vec<PolicyState> = Vec::new();
        let mut i: usize = 0;
        while i < self.states.len()
            invariant
                i <= self.states@.len(),
                states@ == self.states@.subrange(0, i as int),
            decreases self.states@.len() - i,
        {
            states.push(self.states[i]);
            i = i + 1;
            assert(states@ =~= self.states@.subrange(0, i as int));
        }
        let mut policy: Vec<PolicyDecision> = Vec::new();
        let mut j: usize = 0;
        while j < self.policy.len()
            invariant
                j <= self.policy@.len(),
                policy@.len() == j,
                forall|k: int| 0 <= k < j ==> #[trigger] policy@[k]@ == self.policy@[k]@,
            decreases self.policy@.len() - j,
        {
            policy.push(self.policy[j].copy());
            j = j + 1;
        }
        proof {
            assert(states@ =~= self.states@);
            assert(decision_views(policy@) =~= decision_views(self.policy@));
        }
        PolicyModel { states, policy, horizon: self.horizon, certain_initial: self.certain_initial }
    }
}

/// `action args...`, space separated.
pub fn display_action(decision: &PolicyDecision) -> (s: String)
    ensures
        s@ == action_text(decision@),
{
    let mut parts: Vec<String> = Vec::new();
    parts.push(decision.action.clone());
    proof {
        assert(views(parts@) =~= seq![decision.action@] + views(decision.args@.take(0)));
    }
    let mut i: usize = 0;
    while i < decision.args.len()
        invariant
            i <= decision.args@.len(),
            views(parts@) == seq![decision.action@] + views(decision.args@.take(i as int)),
        decreases decision.args@.len() - i,
    {
        let ghost before = parts@;
        let a = decision.args[i].clone();
        parts.push(a);
        proof {
            assert(parts@ == before.push(decision.args@[i as int]));
            assert(views(parts@) =~= views(before).push(decision.args@[i as int]@));
            assert(views(decision.args@.take(i + 1)) =~= views(decision.args@.take(i as int)).push(
                decision.args@[i as int]@,
            ));
        }
        i = i + 1;
    }
    proof {
        assert(decision.args@.take(decision.args@.len() as int) =~= decision.args@);
    }
    join_spaces(&parts)
}

/// What `advance(next)` does from session `s`: refuse outside a selected
/// action; drift on an outcome the selected action does not admit; else
/// step to `next`, one step less of horizon, ready for the next decision.
pub open spec fn advance_answer(
    s: SessionView,
    next: usize,
    t: SessionView,
    r: Result<(), PolicySessionError>,
) -> bool {
    if s.phase != PolicySessionPhase::ActionSelected && s.phase
        != PolicySessionPhase::AwaitingObservation {
        r == Err::<(), PolicySessionError>(PolicySessionError::InvalidPhase(s.phase)) && t == s
    } else {
        match s.selected {
            None => r == Err::<(), PolicySessionError>(PolicySessionError::InvalidPhase(s.phase))
                && t == s,
            Some(d) => if d.outcomes.contains(next) {
                r is Ok && t == (SessionView {
                    current_state: Some(next),
                    remaining: decrement(s.remaining),
                    selected: None,
                    phase: PolicySessionPhase::Ready,
                    ..s
                })
            } else {
                (r matches Err(PolicySessionError::OutcomeNotAdmitted { state, action }) && state
                    == next && action@ == action_text(d)) && t == (SessionView {
                    phase: PolicySessionPhase::Drifted,
                    ..s
                })
            },
        }
    }
}

/// What `decide()` does from session `s`.
pub open spec fn decide_answer(
    s: SessionView,
    t: SessionView,
    r: Result<Option<PolicyDecision>, PolicySessionError>,
) -> bool {
    if s.phase != PolicySessionPhase::Ready {
        r == Err::<Option<PolicyDecision>, PolicySessionError>(
            PolicySessionError::InvalidPhase(s.phase),
        ) && t == s
    } else {
        match s.current_state {
            None => r == Err::<Option<PolicyDecision>, PolicySessionError>(
                PolicySessionError::ObservationIncomplete,
            ) && t == s,
            Some(state) => match goal_of(s.model.states, state) {
                None => r == Err::<Option<PolicyDecision>, PolicySessionError>(
                    PolicySessionError::UnknownState(state),
                ) && t == s,
                Some(goal) => if goal || s.remaining == Some(0usize) {
                    r == Ok::<Option<PolicyDecision>, PolicySessionError>(None) && t == s
                } else {
                    let k = decision_index(s.model.policy, state, s.remaining);
                    if k < 0 {
                        r == Err::<Option<PolicyDecision>, PolicySessionError>(
                            PolicySessionError::PolicyNotClosed { state, remaining: s.remaining },
                        ) && t == s
                    } else {
                        (r matches Ok(Some(d)) && d@ == s.model.policy[k]) && t == (SessionView {
                            selected: Some(s.model.policy[k]),
                            phase: PolicySessionPhase::ActionSelected,
                            ..s
                        })
                    }
                },
            },
        }
    }
}

impl PolicySession {
    /// Open a session on a synthesized policy: ready at the certain initial
    /// state, or waiting for an explicit observation when the initial
    /// distribution is ambiguous.
    pub fn from_solution(model: PolicyModel, verified: bool) -> (s: Self)
        ensures
            s@ == (SessionView {
                model: model@,
                verified,
                current_state: model.certain_initial,
                remaining: model.horizon,
                selected: None,
                phase: if model.certain_initial is Some {
                    PolicySessionPhase::Ready
                } else {
                    PolicySessionPhase::ObservationRequired
                },
                predecessor_receipt: None,
            }),
    {
        let current_state = model.certain_initial;
        let remaining = model.horizon;
        let phase = if current_state.is_some() {
            PolicySessionPhase::Ready
        } else {
            PolicySessionPhase::ObservationRequired
        };
        PolicySession {
            model,
            verified,
            current_state,
            remaining,
            selected: None,
            phase,
            predecessor_receipt: None,
        }
    }

    /// Whether the policy still has an answer for where the session stands:
    /// a goal state, an exhausted horizon, or a decision for the state at
    /// the remaining horizon.
    pub fn policy_still_valid(&self) -> (b: bool)
        ensures
            b == still_valid(self@),
    {
        let state = match self.current_state {
            Some(s) => s,
            None => return false,
        };
        let goal = match find_goal(&self.model.states, state) {
            Some(g) => g,
            None => false,
        };
        let exhausted = match self.remaining {
            Some(v) => v == 0,
            None => false,
        };
        goal || exhausted || find_decision(&self.model.policy, state, self.remaining).is_some()
    }

    /// A snapshot of the session.
    pub fn status(&self) -> (st: PolicySessionStatus)
        ensures
            st.phase == self.phase,
            st.current_state == self.current_state,
            st.remaining == self.remaining,
            match self@.selected {
                Some(d) => st.selected_action matches Some(a) && a@ == action_text(d),
                None => st.selected_action is None,
            },
            st.policy_valid == (self.verified && still_valid(self@)),
            st.predecessor_receipt == self.predecessor_receipt,
    {
        let selected_action = match &self.selected {
            Some(d) => Some(display_action(d)),
            None => None,
        };
        PolicySessionStatus {
            phase: self.phase,
            current_state: self.current_state,
            remaining: self.remaining,
            selected_action,
            policy_valid: self.verified && self.policy_still_valid(),
            predecessor_receipt: match &self.predecessor_receipt {
                Some(p) => Some(p.clone()),
                None => None,
            },
        }
    }

    /// Select the policy's action for the current state. `Ok(None)` at a
    /// goal state or an exhausted horizon. Only a `Ready` session decides.
    pub fn decide(&mut self) -> (r: Result<Option<PolicyDecision>, PolicySessionError>)
        ensures
            decide_answer(old(self)@, final(self)@, r),
    {
        if self.phase != PolicySessionPhase::Ready {
            return Err(PolicySessionError::InvalidPhase(self.phase));
        }
        let state = match self.current_state {
            Some(s) => s,
            None => return Err(PolicySessionError::ObservationIncomplete),
        };
        let goal = match find_goal(&self.model.states, state) {
            Some(g) => g,
            None => return Err(PolicySessionError::UnknownState(state)),
        };
        let exhausted = match self.remaining {
            Some(v) => v == 0,
            None => false,
        };
        if goal || exhausted {
            return Ok(None);
        }
        match find_decision(&self.model.policy, state, self.remaining) {
            None => Err(PolicySessionError::PolicyNotClosed { state, remaining: self.remaining }),
            Some(k) => {
                proof {
                    lemma_decision_index_range(self@.model.policy, state, self.remaining);
                }
                let d = self.model.policy[k].copy();
                self.selected = Some(self.model.policy[k].copy());
                self.phase = PolicySessionPhase::ActionSelected;
                Ok(Some(d))
            },
        }
    }

    /// Record that the selected action was handed over and its outcome is
    /// awaited.
    pub fn mark_awaiting_observation(&mut self) -> (r: Result<(), PolicySessionError>)
        ensures
            old(self).phase == PolicySessionPhase::ActionSelected ==> r is Ok && final(self)@ == (
            SessionView { phase: PolicySessionPhase::AwaitingObservation, ..old(self)@ }),
            old(self).phase != PolicySessionPhase::ActionSelected ==> r == Err::<
                (),
                PolicySessionError,
            >(PolicySessionError::InvalidPhase(old(self).phase)) && final(self)@ == old(self)@,
    {
        if self.phase != PolicySessionPhase::ActionSelected {
            return Err(PolicySessionError::InvalidPhase(self.phase));
        }
        self.phase = PolicySessionPhase::AwaitingObservation;
        Ok(())
    }

    /// Move to `next_state`, which must be an admitted outcome of the
    /// selected action; anything else drifts the session.
    pub fn advance(&mut self, next_state: usize) -> (r: Result<(), PolicySessionError>)
        ensures
            advance_answer(old(self)@, next_state, final(self)@, r),
    {
        if self.phase != PolicySessionPhase::ActionSelected && self.phase
            != PolicySessionPhase::AwaitingObservation {
            return Err(PolicySessionError::InvalidPhase(self.phase));
        }
        let decision = match &self.selected {
            Some(d) => d.copy(),
            None => return Err(PolicySessionError::InvalidPhase(self.phase)),
        };
        let mut admitted = false;
        let mut i: usize = 0;
        while i < decision.outcomes.len()
            invariant
                i <= decision.outcomes@.len(),
                admitted == exists|k: int| 0 <= k < i && decision.outcomes@[k] == next_state,
            decreases decision.outcomes@.len() - i,
        {
            if decision.outcomes[i] == next_state {
                admitted = true;
            }
            i = i + 1;
        }
        if !admitted {
            self.phase = PolicySessionPhase::Drifted;
            return Err(
                PolicySessionError::OutcomeNotAdmitted {
                    state: next_state,
                    action: display_action(&decision),
                },
            );
        }
        self.current_state = Some(next_state);
        self.remaining = match self.remaining {
            Some(v) => Some(
                if v == 0 {
                    0
                } else {
                    v - 1
                },
            ),
            None => None,
        };
        self.selected = None;
        self.phase = PolicySessionPhase::Ready;
        Ok(())
    }

    /// Record an observed state. During a selected action it is the
    /// action's outcome (see [`Self::advance`]); otherwise it relocates the
    /// session. A state outside the model drifts the session.
    pub fn observe(&mut self, state: usize) -> (r: Result<(), PolicySessionError>)
        ensures
            goal_of(old(self)@.model.states, state) is None ==> r == Err::<(), PolicySessionError>(
                PolicySessionError::UnknownState(state),
            ) && final(self)@ == (SessionView { phase: PolicySessionPhase::Drifted, ..old(self)@ }),
            goal_of(old(self)@.model.states, state) is Some && (old(self).phase
                == PolicySessionPhase::ActionSelected || old(self).phase
                == PolicySessionPhase::AwaitingObservation) ==> advance_answer(
                old(self)@,
                state,
                final(self)@,
                r,
            ),
            goal_of(old(self)@.model.states, state) is Some && old(self).phase
                != PolicySessionPhase::ActionSelected && old(self).phase
                != PolicySessionPhase::AwaitingObservation ==> r is Ok && final(self)@ == (
            SessionView {
                current_state: Some(state),
                selected: None,
                phase: PolicySessionPhase::Ready,
                ..old(self)@
            }),
    {
        if find_goal(&self.model.states, state).is_none() {
            self.phase = PolicySessionPhase::Drifted;
            return Err(PolicySessionError::UnknownState(state));
        }
        if self.phase == PolicySessionPhase::ActionSelected || self.phase
            == PolicySessionPhase::AwaitingObservation {
            return self.advance(state);
        }
        self.current_state = Some(state);
        self.selected = None;
        self.phase = PolicySessionPhase::Ready;
        Ok(())
    }

    /// Bind the session to the receipt it continues (or to none).
    pub fn set_predecessor_receipt(&mut self, digest: Option<String>)
        ensures
            final(self)@ == (SessionView {
                predecessor_receipt: match digest {
                    Some(p) => Some(p@),
                    None => None,
                },
                ..old(self)@
            }),
    {
        self.predecessor_receipt = digest;
    }

    /// Close the session: no action stays selected.
    pub fn close(&mut self)
        ensures
            final(self)@ == (SessionView {
                selected: None,
                phase: PolicySessionPhase::Closed,
                ..old(self)@
            }),
    {
        self.selected = None;
        self.phase = PolicySessionPhase::Closed;
    }

    /// An independent copy of the session.
    pub fn fork(&self) -> (c: Self)
        ensures
            c@ == self@,
    {
        PolicySession {
            model: self.model.copy(),
            verified: self.verified,
            current_state: self.current_state,
            remaining: self.remaining,
            selected: match &self.selected {
                Some(d) => Some(d.copy()),
                None => None,
            },
            phase: self.phase,
            predecessor_receipt: match &self.predecessor_receipt {
                Some(p) => Some(p.clone()),
                None => None,
            },
        }
    }
}

/// `needle` stands at position `i` of `hay`.
pub open spec fn occurs_at(hay: Seq<char>, needle: Seq<char>, i: int) -> bool {
    0 <= i && i + needle.len() <= hay.len() && hay.subrange(i, i + needle.len()) == needle
}

/// The first position at or after `i` where `needle` stands in `hay`.
pub open spec fn find_from(hay: Seq<char>, needle: Seq<char>, i: int) -> Option<int>
    decreases hay.len() + 1 - i,
{
    if i < 0 || i + needle.len() > hay.len() {
        None
    } else if occurs_at(hay, needle, i) {
        Some(i)
    } else {
        find_from(hay, needle, i + 1)
    }
}

/// Scanning `s` from `i` at paren depth `depth`: the position just past
/// the `)` that brings the depth back to zero.
pub open spec fn form_end(s: Seq<char>, i: int, depth: int) -> Option<int>
    decreases s.len() - i,
{
    if i < 0 || i >= s.len() {
        None
    } else if s[i] == '(' {
        form_end(s, i + 1, depth + 1)
    } else if s[i] == ')' {
        if depth - 1 == 0 {
            Some(i + 1)
        } else {
            form_end(s, i + 1, depth - 1)
        }
    } else {
        form_end(s, i + 1, depth)
    }
}

/// The problem text with its `(SECTION ...)` form replaced by
/// `(SECTION BODY)`: the form is the first place where `(SECTION` stands in
/// the ASCII-lowercased text, and it runs to its balancing `)`. `None` when
/// there is no such form, or it never closes.
pub open spec fn rewritten(problem: Seq<char>, section: Seq<char>, body: Seq<char>) -> Option<
    Seq<char>,
> {
    let needle = seq!['('] + section;
    match find_from(lower(problem), needle, 0) {
        None => None,
        Some(start) => match form_end(problem, start, 0) {
            None => None,
            Some(end) => Some(
                problem.subrange(0, start) + needle + seq![' '] + body + seq![')']
                    + problem.subrange(end, problem.len() as int),
            ),
        },
    }
}

fn occurs_at_exec(hay: &Vec<char>, needle: &Vec<char>, i: usize) -> (b: bool)
    requires
        i + needle@.len() <= hay@.len(),
    ensures
        b == occurs_at(hay@, needle@, i as int),
{
    let mut k: usize = 0;
    while k < needle.len()
        invariant
            k <= needle@.len(),
            i + needle@.len() <= hay@.len(),
            forall|j: int| 0 <= j < k ==> hay@[i + j] == needle@[j],
        decreases needle@.len() - k,
    {
        assert(i + k < hay.len());
        if hay[i + k] != needle[k] {
            proof {
                assert(hay@.subrange(i as int, i + needle@.len())[k as int] != needle@[k as int]);
            }
            return false;
        }
        k = k + 1;
    }
    proof {
        assert(hay@.subrange(i as int, i + needle@.len()) =~= needle@);
    }
    true
}

fn find_exec(hay: &Vec<char>, needle: &Vec<char>) -> (r: Option<usize>)
    ensures
        match r {
            Some(i) => find_from(hay@, needle@, 0) == Some(i as int),
            None => find_from(hay@, needle@, 0) is None,
        },
{
    if needle.len() > hay.len() {
        return None;
    }
    let last = hay.len() - needle.len();
    let mut i: usize = 0;
    loop
        invariant
            i <= last,
            last + needle@.len() == hay@.len(),
            find_from(hay@, needle@, 0) == find_from(hay@, needle@, i as int),
        decreases last - i,
    {
        if occurs_at_exec(hay, needle, i) {
            return Some(i);
        }
        if i == last {
            proof {
                assert(find_from(hay@, needle@, i + 1) is None);
            }
            return None;
        }
        i = i + 1;
    }
}

fn form_end_exec(s: &Vec<char>, start: usize) -> (r: Option<usize>)
    requires
        start < s@.len(),
        s@[start as int] == '(',
    ensures
        match r {
            Some(e) => form_end(s@, start as int, 0) == Some(e as int),
            None => form_end(s@, start as int, 0) is None,
        },
{
    let mut depth: usize = 0;
    let mut i: usize = start;
    while i < s.len()
        invariant
            start <= i <= s@.len(),
            start < s@.len(),
            s@[start as int] == '(',
            i == start ==> depth == 0,
            i > start ==> depth >= 1,
            depth <= i - start,
            form_end(s@, start as int, 0) == form_end(s@, i as int, depth as int),
        decreases s@.len() - i,
    {
        let c = s[i];
        if c == '(' {
            depth = depth + 1;
        } else if c == ')' {
            if depth == 1 {
                return Some(i + 1);
            }
            depth = depth - 1;
        }
        i = i + 1;
    }
    None
}

fn push_range(out: &mut Vec<char>, src: &Vec<char>, from: usize, to: usize)
    requires
        from <= to <= src@.len(),
    ensures
        final(out)@ == old(out)@ + src@.subrange(from as int, to as int),
{
    let ghost start = out@;
    let mut k: usize = from;
    while k < to
        invariant
            from <= k <= to <= src@.len(),
            out@ == start + src@.subrange(from as int, k as int),
        decreases to - k,
    {
        out.push(src[k]);
        k = k + 1;
        proof {
            assert(out@ =~= start + src@.subrange(from as int, k as int));
        }
    }
}

/// Replace the `(SECTION ...)` form of a problem text by
/// `(SECTION REPLACEMENT_BODY)`. The form is found where `(SECTION` first
/// stands in the ASCII-lowercased text and runs to its balancing `)`;
/// without such a form the rewrite is refused.
pub fn replace_section(problem: &str, section: &str, replacement_body: &str) -> (r: Result<
    String,
    PolicySessionError,
>)
    ensures
        match rewritten(problem@, section@, replacement_body@) {
            Some(t) => r matches Ok(o) && o@ == t,
            None => r matches Err(PolicySessionError::Rewrite(m)) && m@ == section@,
        },
{
    let hay = lower_chars(problem);
    let ps = chars_of(problem);
    let sec = chars_of(section);
    let mut needle: Vec<char> = Vec::new();
    needle.push('(');
    push_range(&mut needle, &sec, 0, sec.len());
    proof {
        assert(sec@.subrange(0, sec@.len() as int) =~= sec@);
    }
    let start = match find_exec(&hay, &needle) {
        Some(i) => i,
        None => return Err(PolicySessionError::Rewrite(String::from_str(section))),
    };
    proof {
        lemma_find_from_sound(hay@, needle@, 0);
        assert(occurs_at(hay@, needle@, start as int));
        assert(hay@.subrange(start as int, start + needle@.len())[0] == needle@[0]);
        assert(hay@[start as int] == '(');
        assert(lower_char(ps@[start as int]) == '(');
    }
    let end = match form_end_exec(&ps, start) {
        Some(e) => e,
        None => return Err(PolicySessionError::Rewrite(String::from_str(section))),
    };
    proof {
        lemma_form_end_range(ps@, start as int, 0);
    }
    let body = chars_of(replacement_body);
    let mut out: Vec<char> = Vec::new();
    push_range(&mut out, &ps, 0, start);
    push_range(&mut out, &needle, 0, needle.len());
    out.push(' ');
    push_range(&mut out, &body, 0, body.len());
    out.push(')');
    push_range(&mut out, &ps, end, ps.len());
    proof {
        assert(needle@.subrange(0, needle@.len() as int) =~= needle@);
        assert(body@.subrange(0, body@.len() as int) =~= body@);
    }
    Ok(string_from(out.as_slice()))
}

proof fn lemma_find_from_sound(hay: Seq<char>, needle: Seq<char>, i: int)
    ensures
        find_from(hay, needle, i) matches Some(k) ==> occurs_at(hay, needle, k),
    decreases hay.len() + 1 - i,
{
    if !(i < 0 || i + needle.len() > hay.len()) && !occurs_at(hay, needle, i) {
        lemma_find_from_sound(hay, needle, i + 1);
    }
}

proof fn lemma_form_end_range(s: Seq<char>, i: int, depth: int)
    ensures
        form_end(s, i, depth) matches Some(e) ==> i < e <= s.len(),
    decreases s.len() - i,
{
    if 0 <= i < s.len() {
        lemma_form_end_range(s, i + 1, depth + 1);
        lemma_form_end_range(s, i + 1, depth - 1);
        lemma_form_end_range(s, i + 1, depth);
    }
}

/// A session only ever stands on states the policy admitted: after a
/// successful `advance`, the current state is one of the selected action's
/// outcomes, the horizon has not grown, and the model is unchanged.
pub proof fn law_advance_stays_on_admitted_outcomes(
    s: SessionView,
    next: usize,
    t: SessionView,
    r: Result<(), PolicySessionError>,
)
    requires
        advance_answer(s, next, t, r),
        r is Ok,
    ensures
        s.selected matches Some(d) && d.outcomes.contains(next),
        t.current_state == Some(next),
        match (s.remaining, t.remaining) {
            (Some(a), Some(b)) => b <= a,
            (None, None) => true,
            _ => false,
        },
        t.phase == PolicySessionPhase::Ready,
        same_model(s, t),
{
}

/// A decision the session selects is the policy's own decision for the
/// current state at the remaining horizon, and selecting it moves nothing
/// else.
pub proof fn law_decide_follows_the_policy(
    s: SessionView,
    t: SessionView,
    d: PolicyDecision,
)
    requires
        decide_answer(s, t, Ok(Some(d))),
    ensures
        s.current_state matches Some(state) && d.state == state && d.remaining == s.remaining,
        t.selected == Some(d@),
        t.current_state == s.current_state,
        t.remaining == s.remaining,
        same_model(s, t),
{
    let state = s.current_state.unwrap();
    lemma_decision_index_range(s.model.policy, state, s.remaining);
}


/// A session standing on a goal state keeps a valid policy: the first
/// state of the model with the current id being a goal needs no decision,
/// whatever the policy holds for it. So does an exhausted horizon; and a
/// session standing nowhere has none.
pub proof fn law_a_goal_state_needs_no_decision(s: SessionView, k: int)
    requires
        s.current_state is Some,
        0 <= k < s.model.states.len(),
        s.model.states[k].id == s.current_state->0,
        s.model.states[k].goal,
        forall|j: int| 0 <= j < k ==> (#[trigger] s.model.states[j]).id != s.current_state->0,
    ensures
        still_valid(s),
{
    lemma_first_state_goal(s.model.states, s.current_state->0, k);
}

proof fn lemma_first_state_goal(states: Seq<PolicyState>, id: usize, k: int)
    requires
        0 <= k < states.len(),
        states[k].id == id,
        forall|j: int| 0 <= j < k ==> (#[trigger] states[j]).id != id,
    ensures
        goal_of(states, id) == Some(states[k].goal),
    decreases k,
{
    if k > 0 {
        assert(states[0].id != id);
        assert forall|j: int| 0 <= j < k - 1 implies (#[trigger] states.drop_first()[j]).id != id by {
            assert(states.drop_first()[j] == states[j + 1]);
        }
        lemma_first_state_goal(states.drop_first(), id, k - 1);
    }
}

/// A session whose horizon is spent, or that has a decision for where it
/// stands, keeps a valid policy; one standing nowhere has none.
pub proof fn law_spent_horizon_or_a_decision_keeps_the_policy_valid(s: SessionView, k: int)
    requires
        0 <= k < s.model.policy.len(),
    ensures
        s.current_state is None ==> !still_valid(s),
        s.current_state is Some && s.remaining == Some(0usize) ==> still_valid(s),
        s.current_state is Some && s.model.policy[k].state == s.current_state->0 && s.model.policy[k].remaining
            == s.remaining ==> still_valid(s),
{
    if s.current_state is Some && s.model.policy[k].state == s.current_state->0 && s.model.policy[k].remaining
        == s.remaining {
        lemma_decision_found(s.model.policy, s.current_state->0, s.remaining, k);
    }
}

proof fn lemma_decision_found(policy: Seq<DecisionView>, state: usize, remaining: Option<usize>, k: int)
    requires
        0 <= k < policy.len(),
        policy[k].state == state && policy[k].remaining == remaining,
    ensures
        decision_index(policy, state, remaining) >= 0,
    decreases k,
{
    if k > 0 && !(policy[0].state == state && policy[0].remaining == remaining) {
        assert(policy.drop_first()[k - 1] == policy[k]);
        lemma_decision_found(policy.drop_first(), state, remaining, k - 1);
    }
}

proof fn lemma_goal_of_witness(states: Seq<PolicyState>, id: usize)
    ensures
        goal_of(states, id) == Some(true) ==> exists|k: int|
            0 <= k < states.len() && (#[trigger] states[k]).id == id && states[k].goal && forall|j: int|
                0 <= j < k ==> (#[trigger] states[j]).id != id,
    decreases states.len(),
{
    if states.len() > 0 && states[0].id != id {
        lemma_goal_of_witness(states.drop_first(), id);
        if goal_of(states, id) == Some(true) {
            let t = states.drop_first();
            let k = choose|k: int|
                0 <= k < t.len() && (#[trigger] t[k]).id == id && t[k].goal && forall|j: int|
                    0 <= j < k ==> (#[trigger] t[j]).id != id;
            assert(states[k + 1] == t[k]);
            assert forall|j: int| 0 <= j < k + 1 implies (#[trigger] states[j]).id != id by {
                if j > 0 {
                    assert(states[j] == t[j - 1]);
                }
            }
        }
    } else if states.len() > 0 {
        if goal_of(states, id) == Some(true) {
            assert(states[0].id == id && states[0].goal);
        }
    }
}

proof fn lemma_decision_witness(policy: Seq<DecisionView>, state: usize, remaining: Option<usize>)
    ensures
        decision_index(policy, state, remaining) >= 0 ==> exists|k: int|
            0 <= k < policy.len() && (#[trigger] policy[k]).state == state && policy[k].remaining == remaining,
    decreases policy.len(),
{
    if policy.len() > 0 && !(policy[0].state == state && policy[0].remaining == remaining) {
        lemma_decision_witness(policy.drop_first(), state, remaining);
        if decision_index(policy, state, remaining) >= 0 {
            let t = policy.drop_first();
            let k = choose|k: int| 0 <= k < t.len() && (#[trigger] t[k]).state == state && t[k].remaining == remaining;
            assert(policy[k + 1] == t[k]);
        }
    } else if policy.len() > 0 {
        assert(policy[0].state == state);
    }
}

/// A valid policy is owed to one of three things only: the session stands
/// on a goal state (the first state of the model with its id), its
/// horizon is spent, or the policy holds a decision for its state at the
/// remaining horizon.
pub proof fn law_a_valid_policy_has_a_reason(s: SessionView)
    requires
        still_valid(s),
    ensures
        s.current_state is Some,
        (exists|k: int|
            0 <= k < s.model.states.len() && (#[trigger] s.model.states[k]).id == s.current_state->0
                && s.model.states[k].goal && forall|j: int|
                0 <= j < k ==> (#[trigger] s.model.states[j]).id != s.current_state->0) || s.remaining == Some(
            0usize,
        ) || (exists|k: int|
            0 <= k < s.model.policy.len() && (#[trigger] s.model.policy[k]).state == s.current_state->0
                && s.model.policy[k].remaining == s.remaining),
{
    lemma_goal_of_witness(s.model.states, s.current_state->0);
    lemma_decision_witness(s.model.policy, s.current_state->0, s.remaining);
}
} // verus!
