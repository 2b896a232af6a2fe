//! The closure walk of a synthesized policy: from the initial states, follow
//! the policy breadth first and report every place where it is not closed:
//! a state outside the model, a non-terminal state without a decision, an
//! outcome distribution whose mass is not one, a successor outside the
//! model.

use vstd::prelude::*;
use vstd::set_lib::*;
use super::{PolicyCounterexample, PolicyCounterexampleKind, PolicySessionError};
use super::PolicySessionPhase;
use super::session::{
    advance_answer, decide_answer, decision_index, decision_views, decrement, find_goal, goal_of,
    lemma_decision_index_range, DecisionView, ModelView, PolicyDecision, PolicyModel, PolicyState,
    SessionView,
};
use vstd::string::StringExecFns;
use crate::text::{cat, cat3, dec, decimal, lower, lower_chars, numbered};

verus! {

/// The facts that hold in one state of the model.
pub struct StateFacts {
    pub id: usize,
    pub facts: Vec<String>,
}

/// What the walk reads of one decision's outcome distribution: whether its
/// probabilities sum to one, and the sum as it is written in a report.
pub struct MassReading {
    pub is_one: bool,
    pub rendered: String,
}

/// `a.eq_ignore_ascii_case(b)`.
pub open spec fn same_ignoring_ascii_case(a: Seq<char>, b: Seq<char>) -> bool {
    lower(a) == lower(b)
}

/// Index of the first entry for state `id`, or -1.
pub open spec fn first_facts(states: Seq<StateFacts>, id: usize) -> int
    decreases states.len(),
{
    if states.len() == 0 {
        -1
    } else if states[0].id == id {
        0
    } else {
        let k = first_facts(states.drop_first(), id);
        if k < 0 {
            -1
        } else {
            k + 1
        }
    }
}

/// Whether the first entry for `state` holds a fact that reads as the
/// unsafe label, ASCII case aside. Without a label nothing is unsafe.
pub open spec fn unsafe_in(states: Seq<StateFacts>, state: usize, label: Option<Seq<char>>) -> bool {
    match label {
        None => false,
        Some(l) => {
            let k = first_facts(states, state);
            k >= 0 && exists|j: int|
                0 <= j < states[k].facts@.len() && same_ignoring_ascii_case(
                    #[trigger] states[k].facts@[j]@,
                    l,
                )
        },
    }
}

proof fn lemma_first_facts(states: Seq<StateFacts>, id: usize)
    ensures
        -1 <= first_facts(states, id) < states.len(),
        first_facts(states, id) >= 0 ==> states[first_facts(states, id)].id == id,
        first_facts(states, id) < 0 ==> forall|i: int| 0 <= i < states.len() ==> states[i].id != id,
    decreases states.len(),
{
    if states.len() > 0 {
        lemma_first_facts(states.drop_first(), id);
        if first_facts(states, id) < 0 {
            assert forall|i: int| 0 <= i < states.len() implies states[i].id != id by {
                if i > 0 {
                    assert(states.drop_first()[i - 1] == states[i]);
                }
            }
        }
    }
}

fn ascii_case_eq(a: &str, b: &str) -> (r: bool)
    ensures
        r == same_ignoring_ascii_case(a@, b@),
{
    let x = lower_chars(a);
    let y = lower_chars(b);
    if x.len() != y.len() {
        return false;
    }
    let mut i: usize = 0;
    while i < x.len()
        invariant
            i <= x@.len(),
            x@ == lower(a@),
            y@ == lower(b@),
            x@.len() == y@.len(),
            forall|k: int| 0 <= k < i ==> x@[k] == y@[k],
        decreases x@.len() - i,
    {
        if x[i] != y[i] {
            assert(x@ != y@);
            return false;
        }
        i = i + 1;
    }
    proof {
        assert(x@ =~= y@);
    }
    true
}

/// Whether `state` is unsafe: its (first) entry holds a fact that reads as
/// the unsafe label, ASCII case aside.
pub fn is_unsafe(states: &[StateFacts], state: usize, unsafe_fact: Option<&str>) -> (b: bool)
    ensures
        b == unsafe_in(
            states@,
            state,
            match unsafe_fact {
                Some(l) => Some(l@),
                None => None,
            },
        ),
{
    let label = match unsafe_fact {
        Some(l) => l,
        None => return false,
    };
    let mut i: usize = 0;
    proof {
        lemma_first_facts(states@, state);
    }
    while i < states.len()
        invariant
            i <= states@.len(),
            unsafe_fact == Some(label),
            forall|k: int| 0 <= k < i ==> states@[k].id != state,
            -1 <= first_facts(states@, state) < states@.len(),
            first_facts(states@, state) >= 0 ==> states@[first_facts(states@, state)].id == state,
            first_facts(states@, state) < 0 ==> forall|k: int|
                0 <= k < states@.len() ==> states@[k].id != state,
        decreases states@.len() - i,
    {
        if states[i].id == state {
            proof {
                lemma_first_is_least(states@, state, i as int);
            }
            let facts = &states[i].facts;
            let mut j: usize = 0;
            while j < facts.len()
                invariant
                    j <= facts@.len(),
                    i < states@.len(),
                    first_facts(states@, state) == i,
                    *facts == states@[i as int].facts,
                    unsafe_fact == Some(label),
                    forall|k: int| 0 <= k < j ==> !same_ignoring_ascii_case(#[trigger] facts@[k]@, label@),
                decreases facts@.len() - j,
            {
                if ascii_case_eq(facts[j].as_str(), label) {
                    assert(same_ignoring_ascii_case(facts@[j as int]@, label@));
                    return true;
                }
                j = j + 1;
            }
            return false;
        }
        i = i + 1;
    }
    false
}

proof fn lemma_first_is_least(states: Seq<StateFacts>, id: usize, i: int)
    requires
        0 <= i < states.len(),
        states[i].id == id,
        forall|k: int| 0 <= k < i ==> states[k].id != id,
    ensures
        first_facts(states, id) == i,
    decreases i,
{
    if i > 0 {
        assert forall|k: int| 0 <= k < i - 1 implies states.drop_first()[k].id != id by {
            assert(states.drop_first()[k] == states[k + 1]);
        }
        lemma_first_is_least(states.drop_first(), id, i - 1);
    }
}

// ----- the walk, step by step -------------------------------------------------------

/// A counterexample as plain values: its kind, its state, its message.
pub open spec fn finding_view(c: PolicyCounterexample) -> (PolicyCounterexampleKind, Option<usize>, Seq<char>) {
    (c.kind, c.state, c.message@)
}

/// `{remaining:?}`: `None`, or `Some(v)`.
pub open spec fn debug_remaining(r: Option<usize>) -> Seq<char> {
    match r {
        None => "None"@,
        Some(v) => "Some("@ + dec(v as nat) + ")"@,
    }
}

pub open spec fn unknown_state_finding(state: usize) -> (PolicyCounterexampleKind, Option<usize>, Seq<char>) {
    (
        PolicyCounterexampleKind::UnknownState,
        Some(state),
        "policy traversal reached unknown state "@ + dec(state as nat),
    )
}

pub open spec fn missing_decision_finding(state: usize, r: Option<usize>) -> (
    PolicyCounterexampleKind,
    Option<usize>,
    Seq<char>,
) {
    (
        PolicyCounterexampleKind::MissingDecision,
        Some(state),
        "no policy decision for state "@ + dec(state as nat) + " at "@ + debug_remaining(r),
    )
}

pub open spec fn mass_finding(state: usize, rendered: Seq<char>) -> (
    PolicyCounterexampleKind,
    Option<usize>,
    Seq<char>,
) {
    (
        PolicyCounterexampleKind::ProbabilityMass,
        Some(state),
        "outcome mass for state "@ + dec(state as nat) + " is "@ + rendered,
    )
}

pub open spec fn successor_finding(state: usize, action: Seq<char>, next: usize) -> (
    PolicyCounterexampleKind,
    Option<usize>,
    Seq<char>,
) {
    (
        PolicyCounterexampleKind::UnknownSuccessor,
        Some(state),
        "state "@ + dec(state as nat) + " action "@ + action + " references unknown successor "@
            + dec(next as nat),
    )
}

/// What a walk reads: the model, the facts of its states, the unsafe label,
/// and the mass reading of each decision.
pub struct WalkRules {
    pub model: ModelView,
    pub facts: Seq<StateFacts>,
    pub label: Option<Seq<char>>,
    pub masses: Seq<(bool, Seq<char>)>,
}

/// Where a walk stands: the visits still queued, the visits made, and what
/// it found so far.
pub struct Walk {
    pub queue: Seq<(usize, Option<usize>)>,
    pub seen: Seq<(usize, Option<usize>)>,
    pub found: Seq<(PolicyCounterexampleKind, Option<usize>, Seq<char>)>,
}

/// Index of the last decision for `state` at `remaining`, or -1 (a later
/// decision for the same visit overrides an earlier one).
pub open spec fn last_decision(policy: Seq<DecisionView>, state: usize, remaining: Option<usize>) -> int
    decreases policy.len(),
{
    if policy.len() == 0 {
        -1
    } else if policy.last().state == state && policy.last().remaining == remaining {
        policy.len() - 1
    } else {
        last_decision(policy.drop_last(), state, remaining)
    }
}

/// A visit ends the walk there: a goal, an unsafe state, or no horizon left.
pub open spec fn terminal(rules: WalkRules, state: usize, remaining: Option<usize>) -> bool {
    goal_of(rules.model.states, state) == Some(true) || unsafe_in(rules.facts, state, rules.label)
        || remaining == Some(0usize)
}

/// The findings for the successors outside the model, in outcome order.
pub open spec fn successor_findings(
    states: Seq<PolicyState>,
    state: usize,
    action: Seq<char>,
    outs: Seq<usize>,
) -> Seq<(PolicyCounterexampleKind, Option<usize>, Seq<char>)>
    decreases outs.len(),
{
    if outs.len() == 0 {
        seq![]
    } else {
        let prev = successor_findings(states, state, action, outs.drop_last());
        if goal_of(states, outs.last()) is None {
            prev.push(successor_finding(state, action, outs.last()))
        } else {
            prev
        }
    }
}

/// The visits a decision's outcomes queue: each successor, one step less of
/// horizon.
pub open spec fn successor_visits(outs: Seq<usize>, remaining: Option<usize>) -> Seq<(usize, Option<usize>)> {
    outs.map_values(|o: usize| (o, decrement(remaining)))
}

/// One step of the walk: take the first queued visit and look at it.
pub open spec fn step(rules: WalkRules, w: Walk) -> Walk {
    if w.queue.len() == 0 {
        w
    } else {
        let (state, remaining) = w.queue[0];
        let rest = w.queue.drop_first();
        if goal_of(rules.model.states, state) is None {
            Walk { queue: rest, seen: w.seen, found: w.found.push(unknown_state_finding(state)) }
        } else if w.seen.contains((state, remaining)) {
            Walk { queue: rest, seen: w.seen, found: w.found }
        } else {
            let seen = w.seen.push((state, remaining));
            if terminal(rules, state, remaining) {
                Walk { queue: rest, seen, found: w.found }
            } else {
                let k = last_decision(rules.model.policy, state, remaining);
                if k < 0 {
                    Walk {
                        queue: rest,
                        seen,
                        found: w.found.push(missing_decision_finding(state, remaining)),
                    }
                } else {
                    let d = rules.model.policy[k];
                    let after_mass = if rules.masses[k].0 {
                        w.found
                    } else {
                        w.found.push(mass_finding(state, rules.masses[k].1))
                    };
                    Walk {
                        queue: rest + successor_visits(d.outcomes, remaining),
                        seen,
                        found: after_mass + successor_findings(
                            rules.model.states,
                            state,
                            d.action,
                            d.outcomes,
                        ),
                    }
                }
            }
        }
    }
}

/// The walk after `n` steps from `w`.
pub open spec fn run(rules: WalkRules, w: Walk, n: nat) -> Walk
    decreases n,
{
    if n == 0 {
        w
    } else {
        step(rules, run(rules, w, (n - 1) as nat))
    }
}

/// The walk's start: every initial state queued with the whole horizon.
pub open spec fn start(initial: Seq<usize>, horizon: Option<usize>) -> Walk {
    Walk {
        queue: initial.map_values(|s: usize| (s, horizon)),
        seen: seq![],
        found: seq![],
    }
}

/// The walk from the initial states after `n` steps.
pub open spec fn walk_after(rules: WalkRules, initial: Seq<usize>, n: nat) -> Walk {
    run(rules, start(initial, rules.model.horizon), n)
}

// ----- why the walk ends ---------------------------------------------------------------

/// The horizon values a visit can carry: none when the horizon is
/// unbounded, else at most the horizon.
pub open spec fn in_range(horizon: Option<usize>, r: Option<usize>) -> bool {
    match (horizon, r) {
        (None, None) => true,
        (Some(h), Some(v)) => v <= h,
        _ => false,
    }
}

pub open spec fn slots(horizon: Option<usize>) -> int {
    match horizon {
        None => 1,
        Some(h) => h + 2,
    }
}

pub open spec fn slot(r: Option<usize>) -> int {
    match r {
        None => 0,
        Some(v) => v + 1,
    }
}

/// Index of the first state with id `id`, or -1.
pub open spec fn state_index(states: Seq<PolicyState>, id: usize) -> int
    decreases states.len(),
{
    if states.len() == 0 {
        -1
    } else if states[0].id == id {
        0
    } else {
        let k = state_index(states.drop_first(), id);
        if k < 0 {
            -1
        } else {
            k + 1
        }
    }
}

proof fn lemma_state_index(states: Seq<PolicyState>, id: usize)
    ensures
        -1 <= state_index(states, id) < states.len(),
        state_index(states, id) >= 0 ==> states[state_index(states, id)].id == id,
        (state_index(states, id) >= 0) == (goal_of(states, id) is Some),
    decreases states.len(),
{
    if states.len() > 0 {
        lemma_state_index(states.drop_first(), id);
    }
}

/// A number for each visit to a known state, below `states.len() * slots`.
pub open spec fn code(states: Seq<PolicyState>, horizon: Option<usize>, p: (usize, Option<usize>)) -> int {
    state_index(states, p.0) * slots(horizon) + slot(p.1)
}

proof fn lemma_code_parts(i1: int, s1: int, i2: int, s2: int, h: int)
    by (nonlinear_arith)
    requires
        h > 0,
        0 <= s1 < h,
        0 <= s2 < h,
        0 <= i1,
        0 <= i2,
        i1 * h + s1 == i2 * h + s2,
    ensures
        i1 == i2,
        s1 == s2,
{
}

proof fn lemma_code_below(i: int, s: int, n: int, h: int)
    by (nonlinear_arith)
    requires
        h > 0,
        0 <= s < h,
        0 <= i < n,
    ensures
        0 <= i * h + s < n * h,
{
}

/// Every visit made is to a known state, with a horizon the walk can carry.
pub open spec fn known_visits(states: Seq<PolicyState>, horizon: Option<usize>, seen: Seq<(usize, Option<usize>)>) -> bool {
    forall|k: int|
        0 <= k < seen.len() ==> state_index(states, #[trigger] seen[k].0) >= 0 && in_range(
            horizon,
            seen[k].1,
        )
}

/// The walk can only make so many distinct visits to known states.
proof fn lemma_seen_bound(states: Seq<PolicyState>, horizon: Option<usize>, seen: Seq<(usize, Option<usize>)>)
    requires
        seen.no_duplicates(),
        known_visits(states, horizon, seen),
    ensures
        seen.len() <= states.len() * slots(horizon),
{
    let h = slots(horizon);
    let n = states.len() as int;
    let codes = seen.map_values(|p: (usize, Option<usize>)| code(states, horizon, p));
    assert forall|a: int, b: int| 0 <= a < codes.len() && 0 <= b < codes.len() && a != b implies codes[a]
        != codes[b] by {
        let pa = seen[a];
        let pb = seen[b];
        lemma_state_index(states, pa.0);
        lemma_state_index(states, pb.0);
        if codes[a] == codes[b] {
            lemma_code_parts(
                state_index(states, pa.0),
                slot(pa.1),
                state_index(states, pb.0),
                slot(pb.1),
                h,
            );
            assert(pa == pb);
        }
    }
    assert(codes.no_duplicates());
    codes.unique_seq_to_set();
    lemma_int_range(0, n * h);
    assert forall|c: int| codes.to_set().contains(c) implies set_int_range(0, n * h).contains(c) by {
        let k = choose|k: int| 0 <= k < codes.len() && codes[k] == c;
        lemma_state_index(states, seen[k].0);
        lemma_code_below(state_index(states, seen[k].0), slot(seen[k].1), n, h);
    }
    lemma_len_subset(codes.to_set(), set_int_range(0, n * h));
}

// ----- the walk, run -------------------------------------------------------------------

/// The unsafe label as plain values.
pub open spec fn label_view(l: Option<&str>) -> Option<Seq<char>> {
    match l {
        Some(x) => Some(x@),
        None => None,
    }
}

/// The rules a walk over these inputs follows.
pub open spec fn rules_of(
    model: ModelView,
    facts: Seq<StateFacts>,
    label: Option<Seq<char>>,
    masses: Seq<MassReading>,
) -> WalkRules {
    WalkRules {
        model,
        facts,
        label,
        masses: masses.map_values(|m: MassReading| (m.is_one, m.rendered@)),
    }
}

proof fn lemma_last_decision(policy: Seq<DecisionView>, state: usize, remaining: Option<usize>)
    ensures
        -1 <= last_decision(policy, state, remaining) < policy.len(),
        last_decision(policy, state, remaining) >= 0 ==> policy[last_decision(
            policy,
            state,
            remaining,
        )].state == state && policy[last_decision(policy, state, remaining)].remaining
            == remaining,
    decreases policy.len(),
{
    if policy.len() > 0 {
        lemma_last_decision(policy.drop_last(), state, remaining);
    }
}

fn find_last_decision(policy: &Vec<PolicyDecision>, state: usize, remaining: Option<usize>) -> (r: Option<usize>)
    ensures
        match r {
            Some(i) => i as int == last_decision(decision_views(policy@), state, remaining),
            None => last_decision(decision_views(policy@), state, remaining) == -1,
        },
{
    let ghost all = decision_views(policy@);
    let mut i: usize = policy.len();
    proof {
        assert(all.take(i as int) =~= all);
    }
    while i > 0
        invariant
            i <= policy@.len(),
            all == decision_views(policy@),
            last_decision(all, state, remaining) == last_decision(all.take(i as int), state, remaining),
        decreases i,
    {
        proof {
            assert(all.take(i as int).drop_last() =~= all.take(i - 1));
            assert(all.take(i as int).last() == policy@[i - 1]@);
        }
        if policy[i - 1].state == state && policy[i - 1].remaining == remaining {
            return Some(i - 1);
        }
        i = i - 1;
    }
    None
}

fn contains_visit(seen: &Vec<(usize, Option<usize>)>, p: (usize, Option<usize>)) -> (b: bool)
    ensures
        b == seen@.contains(p),
{
    let mut i: usize = 0;
    while i < seen.len()
        invariant
            i <= seen@.len(),
            forall|k: int| 0 <= k < i ==> seen@[k] != p,
        decreases seen@.len() - i,
    {
        let q = seen[i];
        if q.0 == p.0 && q.1 == p.1 {
            assert(seen@[i as int] == p);
            return true;
        }
        i = i + 1;
    }
    false
}

fn render_remaining(r: Option<usize>) -> (s: String)
    ensures
        s@ == debug_remaining(r),
{
    match r {
        None => String::from_str("None"),
        Some(v) => numbered("Some(", v, ")"),
    }
}

fn finding(kind: PolicyCounterexampleKind, state: usize, message: String) -> (c: PolicyCounterexample)
    ensures
        finding_view(c) == (kind, Some(state), message@),
{
    PolicyCounterexample { kind, state: Some(state), message }
}

fn push_found(
    found: &mut Vec<PolicyCounterexample>,
    c: PolicyCounterexample,
)
    ensures
        final(found)@.map_values(|x: PolicyCounterexample| finding_view(x)) == old(found)@.map_values(
            |x: PolicyCounterexample| finding_view(x),
        ).push(finding_view(c)),
{
    found.push(c);
    proof {
        assert(found@.map_values(|x: PolicyCounterexample| finding_view(x)) =~= old(found)@.map_values(
            |x: PolicyCounterexample| finding_view(x),
        ).push(finding_view(c)));
    }
}

fn step_remaining(r: Option<usize>) -> (n: Option<usize>)
    ensures
        n == decrement(r),
{
    match r {
        Some(v) => Some(
            if v == 0 {
                0
            } else {
                v - 1
            },
        ),
        None => None,
    }
}

/// Walk the policy breadth first from the initial states, every visit a
/// state and the horizon left there (one step less for each successor), and
/// report where the policy is not closed, in the order the walk finds it:
/// a visit to a state outside the model; a visit, first of its kind, to a
/// state that is not a goal, not unsafe and has horizon left, but no
/// decision (the last decision listed for a visit counts); a decision
/// whose outcome mass is not one; a successor outside the model. A visit
/// already made is not looked at again.
pub fn closure_counterexamples(
    model: &PolicyModel,
    initial: &[usize],
    facts: &[StateFacts],
    unsafe_fact: Option<&str>,
    masses: &[MassReading],
) -> (r: Vec<PolicyCounterexample>)
    requires
        masses@.len() == model.policy@.len(),
    ensures
        exists|n: nat|
            #[trigger] walk_after(
                rules_of(model@, facts@, label_view(unsafe_fact), masses@),
                initial@,
                n,
            ).queue.len() == 0 && r@.map_values(|x: PolicyCounterexample| finding_view(x))
                == walk_after(rules_of(model@, facts@, label_view(unsafe_fact), masses@), initial@, n).found,
{
    let ghost rules = rules_of(model@, facts@, label_view(unsafe_fact), masses@);
    let horizon = model.horizon;
    let mut queue: Vec<(usize, Option<usize>)> = Vec::new();
    let mut i: usize = 0;
    while i < initial.len()
        invariant
            i <= initial@.len(),
            queue@ == initial@.take(i as int).map_values(|s: usize| (s, horizon)),
        decreases initial@.len() - i,
    {
        queue.push((initial[i], horizon));
        i = i + 1;
        proof {
            assert(queue@ =~= initial@.take(i as int).map_values(|s: usize| (s, horizon)));
        }
    }
    proof {
        assert(initial@.take(initial@.len() as int) =~= initial@);
        assert(queue@.skip(0) =~= queue@);
    }
    let mut head: usize = 0;
    let mut seen: Vec<(usize, Option<usize>)> = Vec::new();
    let mut found: Vec<PolicyCounterexample> = Vec::new();
    let ghost mut n: nat = 0;
    let ghost mut w: Walk = start(initial@, horizon);
    proof {
        assert(found@.map_values(|x: PolicyCounterexample| finding_view(x)) =~= w.found);
    }
    while head < queue.len()
        invariant
            head <= queue@.len(),
            masses@.len() == model.policy@.len(),
            horizon == model.horizon,
            rules == rules_of(model@, facts@, label_view(unsafe_fact), masses@),
            w == run(rules, start(initial@, horizon), n),
            queue@.skip(head as int) == w.queue,
            seen@ == w.seen,
            found@.map_values(|x: PolicyCounterexample| finding_view(x)) == w.found,
            seen@.no_duplicates(),
            known_visits(model@.states, horizon, seen@),
            forall|k: int| head <= k < queue@.len() ==> in_range(horizon, #[trigger] queue@[k].1),
        decreases model@.states.len() * slots(horizon) - seen@.len(), queue@.len() - head,
    {
        proof {
            lemma_seen_bound(model@.states, horizon, seen@);
            assert(queue@.skip(head as int)[0] == queue@[head as int]);
            assert(queue@.skip(head as int).drop_first() =~= queue@.skip(head + 1));
        }
        let visit = queue[head];
        let state = visit.0;
        let remaining = visit.1;
        head = head + 1;
        proof {
            w = step(rules, w);
            n = n + 1;
        }
        let goal = match find_goal(&model.states, state) {
            None => {
                let m = cat(
                    "policy traversal reached unknown state ",
                    decimal(state as u128).as_str(),
                );
                push_found(&mut found, finding(PolicyCounterexampleKind::UnknownState, state, m));
                continue;
            },
            Some(g) => g,
        };
        if contains_visit(&seen, visit) {
            continue;
        }
        proof {
            lemma_state_index(model@.states, state);
        }
        seen.push(visit);
        proof {
            assert forall|k: int| 0 <= k < seen@.len() implies state_index(model@.states, #[trigger] seen@[k].0)
                >= 0 && in_range(horizon, seen@[k].1) by {
                if k == seen@.len() - 1 {
                    assert(seen@[k] == visit);
                }
            }
            assert(known_visits(model@.states, horizon, seen@));
            lemma_seen_bound(model@.states, horizon, seen@);
        }
        let unsafe_here = is_unsafe(facts, state, unsafe_fact);
        let exhausted = match remaining {
            Some(v) => v == 0,
            None => false,
        };
        if goal || unsafe_here || exhausted {
            continue;
        }
        let k = match find_last_decision(&model.policy, state, remaining) {
            None => {
                let head_text = cat3(
                    "no policy decision for state ",
                    decimal(state as u128).as_str(),
                    " at ",
                );
                let m = cat(head_text.as_str(), render_remaining(remaining).as_str());
                push_found(
                    &mut found,
                    finding(PolicyCounterexampleKind::MissingDecision, state, m),
                );
                continue;
            },
            Some(k) => k,
        };
        proof {
            lemma_last_decision(rules.model.policy, state, remaining);
        }
        let d = &model.policy[k];
        if !masses[k].is_one {
            let head_text = cat3("outcome mass for state ", decimal(state as u128).as_str(), " is ");
            let m = cat(head_text.as_str(), masses[k].rendered.as_str());
            push_found(&mut found, finding(PolicyCounterexampleKind::ProbabilityMass, state, m));
        }
        let next_remaining = step_remaining(remaining);
        let ghost q0 = queue@;
        let ghost f0 = found@.map_values(|x: PolicyCounterexample| finding_view(x));
        let mut j: usize = 0;
        while j < d.outcomes.len()
            invariant
                j <= d.outcomes@.len(),
                head <= q0.len(),
                queue@ == q0 + successor_visits(d.outcomes@.take(j as int), remaining),
                found@.map_values(|x: PolicyCounterexample| finding_view(x)) == f0
                    + successor_findings(model@.states, state, d.action@, d.outcomes@.take(j as int)),
                next_remaining == decrement(remaining),
                in_range(horizon, remaining),
                forall|k: int| head <= k < q0.len() ==> in_range(horizon, #[trigger] q0[k].1),
                forall|k: int| head <= k < queue@.len() ==> in_range(horizon, #[trigger] queue@[k].1),
            decreases d.outcomes@.len() - j,
        {
            let o = d.outcomes[j];
            let ghost qb = queue@;
            queue.push((o, next_remaining));
            let ghost fb = found@.map_values(|x: PolicyCounterexample| finding_view(x));
            if find_goal(&model.states, o).is_none() {
                let t = cat3("state ", decimal(state as u128).as_str(), " action ");
                let t2 = cat3(t.as_str(), d.action.as_str(), " references unknown successor ");
                let m = cat(t2.as_str(), decimal(o as u128).as_str());
                push_found(&mut found, finding(PolicyCounterexampleKind::UnknownSuccessor, state, m));
            }
            proof {
                assert(d.outcomes@.take(j + 1).drop_last() =~= d.outcomes@.take(j as int));
                assert(d.outcomes@.take(j + 1).last() == o);
                assert(successor_visits(d.outcomes@.take(j + 1), remaining) =~= successor_visits(
                    d.outcomes@.take(j as int),
                    remaining,
                ).push((o, decrement(remaining))));
                assert(queue@ =~= q0 + successor_visits(d.outcomes@.take(j + 1), remaining));
                assert forall|k: int| head <= k < queue@.len() implies in_range(
                    horizon,
                    #[trigger] queue@[k].1,
                ) by {
                    if k == queue@.len() - 1 {
                        assert(queue@[k] == (o, decrement(remaining)));
                    } else {
                        assert(queue@[k] == qb[k]);
                    }
                }
            }
            j = j + 1;
        }
        proof {
            assert(d.outcomes@.take(d.outcomes@.len() as int) =~= d.outcomes@);
            assert(queue@.skip(head as int) =~= w.queue);
        }
    }
    proof {
        assert(w.queue.len() == 0);
        assert(walk_after(rules, initial@, n) == w);
    }
    found
}

/// A counterexample of one of the kinds that break closure.
pub open spec fn breaks_closure(k: PolicyCounterexampleKind) -> bool {
    match k {
        PolicyCounterexampleKind::UnknownState => true,
        PolicyCounterexampleKind::MissingDecision => true,
        PolicyCounterexampleKind::ProbabilityMass => true,
        PolicyCounterexampleKind::UnknownSuccessor => true,
        _ => false,
    }
}

/// Whether a policy is closed, judged by its counterexamples: none of them
/// is an unknown state, a missing decision, a bad mass or an unknown
/// successor.
pub fn closure_holds(counterexamples: &[PolicyCounterexample]) -> (b: bool)
    ensures
        b == forall|i: int|
            0 <= i < counterexamples@.len() ==> !breaks_closure(#[trigger] counterexamples@[i].kind),
{
    let mut i: usize = 0;
    while i < counterexamples.len()
        invariant
            i <= counterexamples@.len(),
            forall|k: int| 0 <= k < i ==> !breaks_closure(#[trigger] counterexamples@[k].kind),
        decreases counterexamples@.len() - i,
    {
        let broken = match counterexamples[i].kind {
            PolicyCounterexampleKind::UnknownState => true,
            PolicyCounterexampleKind::MissingDecision => true,
            PolicyCounterexampleKind::ProbabilityMass => true,
            PolicyCounterexampleKind::UnknownSuccessor => true,
            _ => false,
        };
        if broken {
            return false;
        }
        i = i + 1;
    }
    true
}

// ----- what the walk promises -----------------------------------------------------------

/// A finding names a real defect of the model.
pub open spec fn genuine(rules: WalkRules, f: (PolicyCounterexampleKind, Option<usize>, Seq<char>)) -> bool {
    let states = rules.model.states;
    let policy = rules.model.policy;
    match f.1 {
        None => false,
        Some(s) => match f.0 {
            PolicyCounterexampleKind::UnknownState => goal_of(states, s) is None,
            PolicyCounterexampleKind::MissingDecision => {
                &&& goal_of(states, s) == Some(false)
                &&& !unsafe_in(rules.facts, s, rules.label)
                &&& exists|r: Option<usize>|
                    r != Some(0usize) && #[trigger] last_decision(policy, s, r) < 0
            },
            PolicyCounterexampleKind::ProbabilityMass => exists|k: int|
                0 <= k < policy.len() && #[trigger] policy[k].state == s && !rules.masses[k].0,
            PolicyCounterexampleKind::UnknownSuccessor => exists|k: int, j: int|
                0 <= k < policy.len() && policy[k].state == s && 0 <= j < policy[k].outcomes.len()
                    && goal_of(states, #[trigger] policy[k].outcomes[j]) is None,
            _ => false,
        },
    }
}

proof fn lemma_successor_findings_genuine(
    rules: WalkRules,
    k: int,
    state: usize,
    outs: Seq<usize>,
)
    requires
        0 <= k < rules.model.policy.len(),
        rules.model.policy[k].state == state,
        outs.len() <= rules.model.policy[k].outcomes.len(),
        outs == rules.model.policy[k].outcomes.take(outs.len() as int),
    ensures
        forall|i: int|
            0 <= i < successor_findings(
                rules.model.states,
                state,
                rules.model.policy[k].action,
                outs,
            ).len() ==> genuine(
                rules,
                #[trigger] successor_findings(
                    rules.model.states,
                    state,
                    rules.model.policy[k].action,
                    outs,
                )[i],
            ),
    decreases outs.len(),
{
    let d = rules.model.policy[k];
    if outs.len() > 0 {
        let prev = outs.drop_last();
        assert(prev == d.outcomes.take(prev.len() as int));
        lemma_successor_findings_genuine(rules, k, state, prev);
        let j = outs.len() - 1;
        assert(outs.last() == d.outcomes[j]);
        let f = successor_findings(rules.model.states, state, d.action, outs);
        let fp = successor_findings(rules.model.states, state, d.action, prev);
        assert forall|i: int| 0 <= i < f.len() implies genuine(rules, #[trigger] f[i]) by {
            if i < fp.len() {
                assert(f[i] == fp[i]);
            } else {
                assert(goal_of(rules.model.states, d.outcomes[j]) is None);
            }
        }
    }
}

/// Every counterexample the walk reports points at a real defect of the
/// model: a state outside it; a known state that is neither a goal nor
/// unsafe and lacks a decision at some horizon left; a decision for the
/// state whose mass is not one; a decision for the state with a successor
/// outside the model.
pub proof fn law_findings_are_genuine(rules: WalkRules, initial: Seq<usize>, n: nat)
    requires
        rules.masses.len() == rules.model.policy.len(),
    ensures
        forall|i: int|
            0 <= i < walk_after(rules, initial, n).found.len() ==> genuine(
                rules,
                #[trigger] walk_after(rules, initial, n).found[i],
            ),
    decreases n,
{
    if n > 0 {
        law_findings_are_genuine(rules, initial, (n - 1) as nat);
        let w = walk_after(rules, initial, (n - 1) as nat);
        let w2 = walk_after(rules, initial, n);
        assert(w2 == step(rules, w));
        if w.queue.len() > 0 {
            let (state, remaining) = w.queue[0];
            if goal_of(rules.model.states, state) is Some && !w.seen.contains((state, remaining))
                && !terminal(rules, state, remaining) {
                let k = last_decision(rules.model.policy, state, remaining);
                lemma_last_decision(rules.model.policy, state, remaining);
                if k >= 0 {
                    let d = rules.model.policy[k];
                    assert(d.outcomes.take(d.outcomes.len() as int) =~= d.outcomes);
                    lemma_successor_findings_genuine(rules, k, state, d.outcomes);
                    let after_mass = if rules.masses[k].0 {
                        w.found
                    } else {
                        w.found.push(mass_finding(state, rules.masses[k].1))
                    };
                    let sf = successor_findings(rules.model.states, state, d.action, d.outcomes);
                    assert forall|i: int| 0 <= i < w2.found.len() implies genuine(
                        rules,
                        #[trigger] w2.found[i],
                    ) by {
                        if i < w.found.len() {
                            assert(w2.found[i] == w.found[i]);
                        } else if i < after_mass.len() {
                            assert(rules.model.policy[k].state == state);
                        } else {
                            assert(w2.found[i] == sf[i - after_mass.len()]);
                        }
                    }
                } else {
                    assert forall|i: int| 0 <= i < w2.found.len() implies genuine(
                        rules,
                        #[trigger] w2.found[i],
                    ) by {
                        if i < w.found.len() {
                            assert(w2.found[i] == w.found[i]);
                        } else {
                            assert(w2.found == w.found.push(missing_decision_finding(state, remaining)));
                            assert(w2.found[i] == missing_decision_finding(state, remaining));
                            assert(remaining != Some(0usize));
                            assert(goal_of(rules.model.states, state) == Some(false));
                            assert(last_decision(rules.model.policy, state, remaining) < 0);
                        }
                    }
                }
            } else {
                assert forall|i: int| 0 <= i < w2.found.len() implies genuine(
                    rules,
                    #[trigger] w2.found[i],
                ) by {
                    if i < w.found.len() {
                        assert(w2.found[i] == w.found[i]);
                    }
                }
            }
        }
    }
}

/// A model the walk cannot fault: every initial state is known, every
/// decision's mass is one and its successors are known, and every known
/// state that is neither a goal nor unsafe has a decision at every horizon
/// the walk can carry to it but zero.
pub open spec fn model_closed(rules: WalkRules, initial: Seq<usize>) -> bool {
    let states = rules.model.states;
    let policy = rules.model.policy;
    &&& forall|i: int| 0 <= i < initial.len() ==> goal_of(states, #[trigger] initial[i]) is Some
    &&& forall|k: int| 0 <= k < policy.len() ==> #[trigger] rules.masses[k].0
    &&& forall|k: int, j: int|
        0 <= k < policy.len() && 0 <= j < policy[k].outcomes.len() ==> goal_of(
            states,
            #[trigger] policy[k].outcomes[j],
        ) is Some
    &&& forall|s: usize, r: Option<usize>|
        goal_of(states, s) is Some && in_range(rules.model.horizon, r) && !terminal(rules, s, r)
            ==> #[trigger] last_decision(policy, s, r) >= 0
}

/// While the walk runs over a model it cannot fault: nothing found, and
/// every queued visit is to a known state with a horizon it can carry.
pub open spec fn quiet(rules: WalkRules, w: Walk) -> bool {
    &&& w.found.len() == 0
    &&& forall|i: int|
        0 <= i < w.queue.len() ==> goal_of(rules.model.states, (#[trigger] w.queue[i]).0) is Some
            && in_range(rules.model.horizon, w.queue[i].1)
}

proof fn lemma_successors_quiet(rules: WalkRules, k: int, state: usize, outs: Seq<usize>)
    requires
        0 <= k < rules.model.policy.len(),
        model_closed(rules, seq![]),
        outs.len() <= rules.model.policy[k].outcomes.len(),
        outs == rules.model.policy[k].outcomes.take(outs.len() as int),
    ensures
        successor_findings(rules.model.states, state, rules.model.policy[k].action, outs).len()
            == 0,
    decreases outs.len(),
{
    if outs.len() > 0 {
        let d = rules.model.policy[k];
        let prev = outs.drop_last();
        assert(prev == d.outcomes.take(prev.len() as int));
        lemma_successors_quiet(rules, k, state, prev);
        assert(outs.last() == d.outcomes[outs.len() - 1]);
    }
}

/// A model the walk cannot fault passes: the walk finds nothing, however
/// far it runs.
pub proof fn law_closed_model_passes(rules: WalkRules, initial: Seq<usize>, n: nat)
    requires
        rules.masses.len() == rules.model.policy.len(),
        model_closed(rules, initial),
    ensures
        walk_after(rules, initial, n).found.len() == 0,
{
    lemma_quiet_run(rules, initial, n);
}

proof fn lemma_quiet_run(rules: WalkRules, initial: Seq<usize>, n: nat)
    requires
        rules.masses.len() == rules.model.policy.len(),
        model_closed(rules, initial),
    ensures
        quiet(rules, walk_after(rules, initial, n)),
    decreases n,
{
    let h = rules.model.horizon;
    if n == 0 {
        let w = walk_after(rules, initial, 0);
        assert forall|i: int| 0 <= i < w.queue.len() implies goal_of(
            rules.model.states,
            (#[trigger] w.queue[i]).0,
        ) is Some && in_range(h, w.queue[i].1) by {
            assert(w.queue[i] == (initial[i], h));
            match h {
                Some(v) => {},
                None => {},
            }
        }
    } else {
        lemma_quiet_run(rules, initial, (n - 1) as nat);
        let w = walk_after(rules, initial, (n - 1) as nat);
        let w2 = walk_after(rules, initial, n);
        assert(w2 == step(rules, w));
        if w.queue.len() > 0 {
            let (state, remaining) = w.queue[0];
            assert(goal_of(rules.model.states, w.queue[0].0) is Some);
            let rest = w.queue.drop_first();
            if !w.seen.contains((state, remaining)) && !terminal(rules, state, remaining) {
                let k = last_decision(rules.model.policy, state, remaining);
                assert(k >= 0);
                lemma_last_decision(rules.model.policy, state, remaining);
                let d = rules.model.policy[k];
                assert(rules.masses[k].0);
                assert(d.outcomes.take(d.outcomes.len() as int) =~= d.outcomes);
                assert(model_closed(rules, seq![]));
                lemma_successors_quiet(rules, k, state, d.outcomes);
                let sv = successor_visits(d.outcomes, remaining);
                assert(w2.queue == rest + sv);
                assert forall|i: int| 0 <= i < w2.queue.len() implies goal_of(
                    rules.model.states,
                    (#[trigger] w2.queue[i]).0,
                ) is Some && in_range(h, w2.queue[i].1) by {
                    if i < rest.len() {
                        assert(w2.queue[i] == w.queue[i + 1]);
                    } else {
                        let j = i - rest.len();
                        assert(w2.queue[i] == (d.outcomes[j], decrement(remaining)));
                        assert(in_range(h, w.queue[0].1));
                    }
                }
            } else {
                assert forall|i: int| 0 <= i < w2.queue.len() implies goal_of(
                    rules.model.states,
                    (#[trigger] w2.queue[i]).0,
                ) is Some && in_range(h, w2.queue[i].1) by {
                    assert(w2.queue[i] == w.queue[i + 1]);
                }
            }
        }
    }
}

// ----- a silent walk certifies what the policy reaches ------------------------------------

/// The visits the policy leads to from `v`: for a known state that does not
/// end the walk and has a decision, each successor of that decision with
/// one step less of horizon; none otherwise.
pub open spec fn next_visits(rules: WalkRules, v: (usize, Option<usize>)) -> Seq<(usize, Option<usize>)> {
    let k = last_decision(rules.model.policy, v.0, v.1);
    if goal_of(rules.model.states, v.0) is None || terminal(rules, v.0, v.1) || k < 0 {
        seq![]
    } else {
        successor_visits(rules.model.policy[k].outcomes, v.1)
    }
}

/// Whether `path` follows the policy from an initial state, with the
/// whole horizon, to the visit `v`: each visit on it is one that the
/// visit before leads to.
pub open spec fn path_to(rules: WalkRules, initial: Seq<usize>, path: Seq<(usize, Option<usize>)>, v: (usize, Option<usize>)) -> bool {
    &&& path.len() > 0
    &&& initial.contains(path[0].0)
    &&& path[0].1 == rules.model.horizon
    &&& forall|i: int| 0 <= i < path.len() - 1 ==> next_visits(rules, #[trigger] path[i]).contains(path[i + 1])
    &&& path.last() == v
}

/// A visit the walk cannot fault: its state is known, and unless the walk
/// ends there it has a decision whose mass is one and whose successors are
/// all known.
pub open spec fn visit_closed(rules: WalkRules, v: (usize, Option<usize>)) -> bool {
    let states = rules.model.states;
    let policy = rules.model.policy;
    let k = last_decision(policy, v.0, v.1);
    &&& goal_of(states, v.0) is Some
    &&& !terminal(rules, v.0, v.1) ==> {
        &&& k >= 0
        &&& rules.masses[k].0
        &&& forall|j: int| 0 <= j < policy[k].outcomes.len() ==> goal_of(states, #[trigger] policy[k].outcomes[j]) is Some
    }
}

proof fn lemma_no_successor_findings(states: Seq<PolicyState>, state: usize, action: Seq<char>, outs: Seq<usize>)
    requires
        successor_findings(states, state, action, outs).len() == 0,
    ensures
        forall|j: int| 0 <= j < outs.len() ==> goal_of(states, #[trigger] outs[j]) is Some,
    decreases outs.len(),
{
    if outs.len() > 0 {
        let prev = successor_findings(states, state, action, outs.drop_last());
        if goal_of(states, outs.last()) is None {
            assert(successor_findings(states, state, action, outs).len() == prev.len() + 1);
        }
        lemma_no_successor_findings(states, state, action, outs.drop_last());
        assert forall|j: int| 0 <= j < outs.len() implies goal_of(states, #[trigger] outs[j]) is Some by {
            if j < outs.len() - 1 {
                assert(outs.drop_last()[j] == outs[j]);
            }
        }
    }
}

/// What a walk that has found nothing so far keeps: every visit it made is
/// closed, whatever such a visit leads to is made or queued, and every
/// initial visit is made or queued.
pub open spec fn silent_inv(rules: WalkRules, initial: Seq<usize>, w: Walk) -> bool {
    &&& forall|v: (usize, Option<usize>)| #[trigger] w.seen.contains(v) ==> visit_closed(rules, v)
    &&& forall|v: (usize, Option<usize>), x: (usize, Option<usize>)|
        #[trigger] w.seen.contains(v) && #[trigger] next_visits(rules, v).contains(x) ==> w.seen.contains(x)
            || w.queue.contains(x)
    &&& forall|i: int|
        0 <= i < initial.len() ==> w.seen.contains((#[trigger] initial[i], rules.model.horizon))
            || w.queue.contains((initial[i], rules.model.horizon))
}

#[verifier::rlimit(40)]
proof fn lemma_silent_run(rules: WalkRules, initial: Seq<usize>, n: nat)
    requires
        rules.masses.len() == rules.model.policy.len(),
        walk_after(rules, initial, n).found.len() == 0,
    ensures
        silent_inv(rules, initial, walk_after(rules, initial, n)),
    decreases n,
{
    let h = rules.model.horizon;
    if n == 0 {
        let w = walk_after(rules, initial, 0);
        assert forall|i: int| 0 <= i < initial.len() implies w.seen.contains((#[trigger] initial[i], h))
            || w.queue.contains((initial[i], h)) by {
            assert(w.queue[i] == (initial[i], h));
        }
    } else {
        let w = walk_after(rules, initial, (n - 1) as nat);
        let w2 = walk_after(rules, initial, n);
        assert(w2 == step(rules, w));
        if w.queue.len() == 0 {
            lemma_silent_run(rules, initial, (n - 1) as nat);
        } else {
            let (state, remaining) = w.queue[0];
            let head = w.queue[0];
            let rest = w.queue.drop_first();
            let k = last_decision(rules.model.policy, state, remaining);
            // The walk only ever adds findings.
            if goal_of(rules.model.states, state) is None {
                assert(w2.found.len() == w.found.len() + 1);
            } else if w.seen.contains(head) {
                lemma_silent_run(rules, initial, (n - 1) as nat);
                assert forall|x: (usize, Option<usize>)| w.queue.contains(x) implies w2.seen.contains(x) || w2.queue.contains(x) by {
                    let i = choose|i: int| 0 <= i < w.queue.len() && w.queue[i] == x;
                    if i > 0 {
                        assert(rest[i - 1] == x);
                    }
                }
            } else {
                let seen2 = w.seen.push(head);
                assert(w2.seen == seen2);
                if terminal(rules, state, remaining) {
                    assert(w2.found == w.found);
                    lemma_silent_run(rules, initial, (n - 1) as nat);
                    assert(w2.queue == rest);
                    assert(visit_closed(rules, head));
                    assert(next_visits(rules, head) =~= seq![]);
                } else if k < 0 {
                    assert(w2.found.len() == w.found.len() + 1);
                } else {
                    lemma_last_decision(rules.model.policy, state, remaining);
                    let d = rules.model.policy[k];
                    let after_mass = if rules.masses[k].0 {
                        w.found
                    } else {
                        w.found.push(mass_finding(state, rules.masses[k].1))
                    };
                    let sf = successor_findings(rules.model.states, state, d.action, d.outcomes);
                    assert(w2.found == after_mass + sf);
                    assert(after_mass.len() == 0 && sf.len() == 0);
                    assert(rules.masses[k].0);
                    assert(w.found.len() == 0);
                    lemma_silent_run(rules, initial, (n - 1) as nat);
                    lemma_no_successor_findings(rules.model.states, state, d.action, d.outcomes);
                    let sv = successor_visits(d.outcomes, remaining);
                    assert(w2.queue == rest + sv);
                    assert(next_visits(rules, head) == sv);
                    assert forall|x: (usize, Option<usize>)| sv.contains(x) implies w2.queue.contains(x) by {
                        let j = choose|j: int| 0 <= j < sv.len() && sv[j] == x;
                        assert(w2.queue[rest.len() + j] == x);
                    }
                    assert(visit_closed(rules, head));
                }
                if !(goal_of(rules.model.states, state) is None) && (terminal(rules, state, remaining) || k >= 0) {
                    assert forall|x: (usize, Option<usize>)| w.queue.contains(x) implies w2.seen.contains(x) || w2.queue.contains(x) by {
                        let i = choose|i: int| 0 <= i < w.queue.len() && w.queue[i] == x;
                        if i > 0 {
                            assert(rest[i - 1] == x);
                            assert(w2.queue[i - 1] == x);
                        } else {
                            assert(seen2[seen2.len() - 1] == x);
                        }
                    }
                    assert forall|x: (usize, Option<usize>)| w.seen.contains(x) implies w2.seen.contains(x) by {
                        let i = choose|i: int| 0 <= i < w.seen.len() && w.seen[i] == x;
                        assert(seen2[i] == x);
                    }
                    assert forall|v: (usize, Option<usize>)| #[trigger] w2.seen.contains(v) implies visit_closed(rules, v) by {
                        let i = choose|i: int| 0 <= i < seen2.len() && seen2[i] == v;
                        if i < w.seen.len() {
                            assert(w.seen[i] == v);
                            assert(w.seen.contains(v));
                        } else {
                            assert(v == head);
                        }
                    }
                    assert forall|v: (usize, Option<usize>), x: (usize, Option<usize>)|
                        #[trigger] w2.seen.contains(v) && #[trigger] next_visits(rules, v).contains(x) implies w2.seen.contains(x)
                            || w2.queue.contains(x) by {
                        let i = choose|i: int| 0 <= i < seen2.len() && seen2[i] == v;
                        if i < w.seen.len() {
                            assert(w.seen[i] == v);
                            assert(w.seen.contains(v));
                        }
                    }
                }
            }
        }
    }
}

/// A walk that runs out of visits without finding anything certifies the
/// policy: every visit that following it from the initial states, with the
/// whole horizon, comes to is closed — a known state that, unless the walk
/// ends there, has a decision whose mass is one and whose successors are
/// known.
pub proof fn law_silent_walk_certifies_reached_visits(
    rules: WalkRules,
    initial: Seq<usize>,
    n: nat,
    path: Seq<(usize, Option<usize>)>,
    v: (usize, Option<usize>),
)
    requires
        rules.masses.len() == rules.model.policy.len(),
        walk_after(rules, initial, n).queue.len() == 0,
        walk_after(rules, initial, n).found.len() == 0,
        path_to(rules, initial, path, v),
    ensures
        visit_closed(rules, v),
{
    lemma_silent_run(rules, initial, n);
    lemma_path_seen(rules, initial, n, path, path.len() - 1);
    assert(walk_after(rules, initial, n).seen.contains(path.last()));
}

proof fn lemma_path_seen(rules: WalkRules, initial: Seq<usize>, n: nat, path: Seq<(usize, Option<usize>)>, i: int)
    requires
        walk_after(rules, initial, n).queue.len() == 0,
        silent_inv(rules, initial, walk_after(rules, initial, n)),
        path.len() > 0,
        initial.contains(path[0].0),
        path[0].1 == rules.model.horizon,
        forall|j: int| 0 <= j < path.len() - 1 ==> next_visits(rules, #[trigger] path[j]).contains(path[j + 1]),
        0 <= i < path.len(),
    ensures
        walk_after(rules, initial, n).seen.contains(path[i]),
    decreases i,
{
    let w = walk_after(rules, initial, n);
    if i == 0 {
        let k = choose|k: int| 0 <= k < initial.len() && initial[k] == path[0].0;
        assert(w.seen.contains((initial[k], rules.model.horizon)) || w.queue.contains((initial[k], rules.model.horizon)));
        assert(path[0] == (initial[k], rules.model.horizon));
    } else {
        lemma_path_seen(rules, initial, n, path, i - 1);
        assert(next_visits(rules, path[i - 1]).contains(path[i]));
        assert(w.seen.contains(path[i]) || w.queue.contains(path[i]));
    }
}

// ----- a closed policy keeps a session answered ------------------------------------------

/// A session walking a policy the walk cannot fault stays on track: it
/// stands on a known state with a horizon the walk can carry, and any
/// action it holds is the model's own decision for that state and horizon.
pub open spec fn on_track(rules: WalkRules, s: SessionView) -> bool {
    &&& s.model == rules.model
    &&& s.current_state matches Some(st) && goal_of(rules.model.states, st) is Some
    &&& in_range(rules.model.horizon, s.remaining)
    &&& s.phase == PolicySessionPhase::Ready || s.phase == PolicySessionPhase::ActionSelected
        || s.phase == PolicySessionPhase::AwaitingObservation
    &&& s.phase != PolicySessionPhase::Ready ==> (s.selected matches Some(d) && exists|k: int|
        0 <= k < rules.model.policy.len() && #[trigger] rules.model.policy[k] == d && Some(d.state)
            == s.current_state && d.remaining == s.remaining)
}

proof fn lemma_some_decision(policy: Seq<DecisionView>, state: usize, remaining: Option<usize>)
    ensures
        (last_decision(policy, state, remaining) >= 0) == (decision_index(policy, state, remaining)
            >= 0),
    decreases policy.len(),
{
    if policy.len() > 0 {
        lemma_some_decision(policy.drop_last(), state, remaining);
        lemma_some_decision(policy.drop_first(), state, remaining);
        lemma_last_decision(policy, state, remaining);
        lemma_decision_index_range(policy, state, remaining);
        if policy.len() > 1 {
            lemma_some_decision(policy.drop_first().drop_last(), state, remaining);
            assert(policy.drop_first().drop_last() =~= policy.drop_last().drop_first());
            assert(policy.drop_first().last() == policy.last());
            assert(policy.drop_last()[0] == policy[0]);
        }
        lemma_last_decision(policy.drop_last(), state, remaining);
        lemma_decision_index_range(policy.drop_first(), state, remaining);
        if decision_index(policy, state, remaining) >= 0 && last_decision(policy, state, remaining) < 0 {
            lemma_no_last_means_none(policy, state, remaining, decision_index(policy, state, remaining));
        }
        if last_decision(policy, state, remaining) >= 0 && decision_index(policy, state, remaining) < 0 {
            lemma_no_first_means_none(policy, state, remaining, last_decision(policy, state, remaining));
        }
    }
}

proof fn lemma_no_last_means_none(policy: Seq<DecisionView>, state: usize, remaining: Option<usize>, k: int)
    requires
        0 <= k < policy.len(),
        policy[k].state == state && policy[k].remaining == remaining,
    ensures
        last_decision(policy, state, remaining) >= k,
    decreases policy.len(),
{
    if k < policy.len() - 1 {
        if !(policy.last().state == state && policy.last().remaining == remaining) {
            assert(policy.drop_last()[k] == policy[k]);
            lemma_no_last_means_none(policy.drop_last(), state, remaining, k);
        }
    }
}

proof fn lemma_no_first_means_none(policy: Seq<DecisionView>, state: usize, remaining: Option<usize>, k: int)
    requires
        0 <= k < policy.len(),
        policy[k].state == state && policy[k].remaining == remaining,
    ensures
        0 <= decision_index(policy, state, remaining) <= k,
    decreases k,
{
    if k > 0 {
        if !(policy[0].state == state && policy[0].remaining == remaining) {
            assert(policy.drop_first()[k - 1] == policy[k]);
            lemma_no_first_means_none(policy.drop_first(), state, remaining, k - 1);
        }
    }
}

/// Over a policy the walk cannot fault, with no unsafe label, a session on
/// track never runs out of policy: deciding answers, and leaves the session
/// on track.
pub proof fn law_closed_policy_always_decides(
    rules: WalkRules,
    s: SessionView,
    t: SessionView,
    r: Result<Option<PolicyDecision>, PolicySessionError>,
)
    requires
        rules.label is None,
        rules.masses.len() == rules.model.policy.len(),
        model_closed(rules, seq![]),
        on_track(rules, s),
        s.phase == PolicySessionPhase::Ready,
        decide_answer(s, t, r),
    ensures
        r is Ok,
        on_track(rules, t),
{
    let st = s.current_state->0;
    lemma_some_decision(rules.model.policy, st, s.remaining);
    lemma_decision_index_range(rules.model.policy, st, s.remaining);
    let k = decision_index(rules.model.policy, st, s.remaining);
    if k >= 0 && !(goal_of(rules.model.states, st) == Some(true) || s.remaining == Some(0usize)) {
        assert(rules.model.policy[k] == t.selected->0);
    }
}

/// Over a policy the walk cannot fault, an outcome the selected action
/// admits leaves the session on track.
pub proof fn law_closed_policy_advances_on_track(
    rules: WalkRules,
    s: SessionView,
    next: usize,
    t: SessionView,
    r: Result<(), PolicySessionError>,
)
    requires
        rules.masses.len() == rules.model.policy.len(),
        model_closed(rules, seq![]),
        on_track(rules, s),
        advance_answer(s, next, t, r),
        r is Ok,
    ensures
        on_track(rules, t),
{
    let d = s.selected->0;
    let k = choose|k: int|
        0 <= k < rules.model.policy.len() && #[trigger] rules.model.policy[k] == d && Some(d.state)
            == s.current_state && d.remaining == s.remaining;
    let j = choose|j: int| 0 <= j < d.outcomes.len() && d.outcomes[j] == next;
    assert(goal_of(rules.model.states, rules.model.policy[k].outcomes[j]) is Some);
}

} // verus!
