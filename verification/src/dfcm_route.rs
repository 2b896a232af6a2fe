//! Admission for counterfactual probe requests, shared by both session
//! surfaces; the repair router's decisions; and the deterministic corridor
//! fixture used by the regression tests. Nothing here advances a cursor or
//! actuates anything.

use vstd::prelude::*;
use vstd::string::StringExecFns;
use crate::probe_guard::{byte_len, duplicate_id, first_repeat, malformed, malformed_id};
use crate::text::{cat3, dec, join_sp, join_spaces, numbered, views};

verus! {

/// Maximum number of candidates in one probe request (both surfaces).
pub const MAX_PROBE_CANDIDATES: usize = 32;
/// Maximum number of observations per probe candidate (both surfaces).
pub const MAX_PROBE_OBSERVATIONS: usize = 1_024;
/// Maximum bytes of one observed fact or restriction filter.
pub const MAX_PROBE_FACT_BYTES: usize = 4_096;

/// One counterfactual candidate: an optional goal retarget, a bounded
/// observation set, and an optional action-surface restriction.
#[derive(Clone, Debug)]
pub struct ProbeCandidate {
    pub id: String,
    pub goal: Option<String>,
    pub sight: Vec<(String, bool)>,
    pub restrict_contains: Option<String>,
}

/// A typed probe-admission refusal: `(code, message)`.
pub type Refusal = (&'static str, String);

/// A candidate whose goal, observation set, an observed fact, or restriction
/// filter exceeds its limit.
pub open spec fn oversized(c: ProbeCandidate, goal_limit: nat) -> bool {
    ||| (c.goal matches Some(g) && byte_len(g@) > goal_limit)
    ||| c.sight@.len() > MAX_PROBE_OBSERVATIONS
    ||| (exists|k: int|
        0 <= k < c.sight@.len() && byte_len((#[trigger] c.sight@[k]).0@) > MAX_PROBE_FACT_BYTES)
    ||| (c.restrict_contains matches Some(f) && byte_len(f@) > MAX_PROBE_FACT_BYTES)
}

pub open spec fn candidate_ids(cs: Seq<ProbeCandidate>) -> Seq<Seq<char>> {
    cs.map_values(|c: ProbeCandidate| c.id@)
}

/// What admission answers, as (code, message), or `None` for admitted.
pub open spec fn refusal_of(
    cs: Seq<ProbeCandidate>,
    goal_limit: nat,
    surface: Seq<char>,
    r: Result<(), Refusal>,
) -> bool {
    let ids = candidate_ids(cs);
    if cs.len() == 0 || cs.len() > MAX_PROBE_CANDIDATES {
        r == Err::<(), Refusal>(("FP_LIMIT_CANDIDATES", r->Err_0.1))
            && r->Err_0.1@ == "candidates must contain between 1 and 32 entries"@
    } else if exists|i: int| 0 <= i < ids.len() && malformed(#[trigger] ids[i]) {
        exists|i: int|
            0 <= i < ids.len() && malformed(ids[i]) && (forall|j: int|
                0 <= j < i ==> !malformed(#[trigger] ids[j])) && r == Err::<(), Refusal>(
                ("FP_LIMIT_CANDIDATE", r->Err_0.1),
            ) && r->Err_0.1@ == "candidate id `"@ + ids[i] + "` must be 1..=256 bytes"@
    } else if exists|j: int, k: int| 0 <= j < k < ids.len() && ids[j] == ids[k] {
        exists|i: int|
            first_repeat(ids, i) && r == Err::<(), Refusal>(("FP_DUPLICATE_CANDIDATE", r->Err_0.1))
                && r->Err_0.1@ == "candidate id `"@ + ids[i] + "` is delivered more than once"@
    } else if exists|i: int| 0 <= i < cs.len() && oversized(#[trigger] cs[i], goal_limit) {
        r == Err::<(), Refusal>(("FP_LIMIT_CANDIDATE", r->Err_0.1)) && r->Err_0.1@
            == "candidate id, goal, observation, or restriction exceeds the "@ + surface
            + " probe limit"@
    } else {
        r == Ok::<(), Refusal>(())
    }
}

/// The byte length of a string, exactly.
fn str_bytes(s: &str) -> (n: usize)
    ensures
        n == byte_len(s@),
{
    s.as_bytes().len()
}

fn candidate_oversized(c: &ProbeCandidate, goal_limit: usize) -> (b: bool)
    ensures
        b == oversized(*c, goal_limit as nat),
{
    if let Some(goal) = &c.goal {
        if str_bytes(goal.as_str()) > goal_limit {
            return true;
        }
    }
    if c.sight.len() > MAX_PROBE_OBSERVATIONS {
        return true;
    }
    let mut k: usize = 0;
    while k < c.sight.len()
        invariant
            k <= c.sight@.len(),
            !(c.goal matches Some(g) && byte_len(g@) > goal_limit),
            forall|m: int| 0 <= m < k ==> byte_len((#[trigger] c.sight@[m]).0@) <= MAX_PROBE_FACT_BYTES,
        decreases c.sight@.len() - k,
    {
        if str_bytes(c.sight[k].0.as_str()) > MAX_PROBE_FACT_BYTES {
            return true;
        }
        k = k + 1;
    }
    if let Some(filter) = &c.restrict_contains {
        if str_bytes(filter.as_str()) > MAX_PROBE_FACT_BYTES {
            return true;
        }
    }
    false
}

/// Admission for a whole probe request. `goal_limit` is the surface's text
/// field limit; `surface` names the surface in the limit message.
pub fn admit_candidates(candidates: &[ProbeCandidate], goal_limit: usize, surface: &str) -> (r:
    Result<(), Refusal>)
    ensures
        refusal_of(candidates@, goal_limit as nat, surface@, r),
{
    let ghost ids = candidate_ids(candidates@);
    if candidates.len() == 0 || candidates.len() > MAX_PROBE_CANDIDATES {
        return Err(
            (
                "FP_LIMIT_CANDIDATES",
                String::from_str("candidates must contain between 1 and 32 entries"),
            ),
        );
    }
    let mut id_refs: Vec<&str> = Vec::new();
    let mut i: usize = 0;
    while i < candidates.len()
        invariant
            i <= candidates@.len(),
            ids == candidate_ids(candidates@),
            id_refs@.len() == i,
            forall|m: int| 0 <= m < i ==> (#[trigger] id_refs@[m])@ == ids[m],
        decreases candidates@.len() - i,
    {
        id_refs.push(candidates[i].id.as_str());
        i = i + 1;
    }
    proof {
        assert(id_refs@.map_values(|s: &str| s@) =~= ids);
    }
    if let Some(id) = malformed_id(id_refs.as_slice()) {
        return Err(("FP_LIMIT_CANDIDATE", cat3("candidate id `", id, "` must be 1..=256 bytes")));
    }
    if let Some(id) = duplicate_id(id_refs.as_slice()) {
        return Err(
            ("FP_DUPLICATE_CANDIDATE", cat3("candidate id `", id, "` is delivered more than once")),
        );
    }
    proof {
        assert forall|j: int, k: int| 0 <= j < k < ids.len() implies ids[j] != ids[k] by {
            assert(id_refs@[j]@ == ids[j] && id_refs@[k]@ == ids[k]);
        }
        assert forall|j: int| 0 <= j < ids.len() implies !malformed(#[trigger] ids[j]) by {
            assert(id_refs@[j]@ == ids[j]);
        }
    }
    let mut c: usize = 0;
    while c < candidates.len()
        invariant
            c <= candidates@.len(),
            1 <= candidates@.len() <= MAX_PROBE_CANDIDATES,
            ids == candidate_ids(candidates@),
            forall|j: int, k: int| 0 <= j < k < ids.len() ==> ids[j] != ids[k],
            forall|j: int| 0 <= j < ids.len() ==> !malformed(#[trigger] ids[j]),
            forall|m: int| 0 <= m < c ==> !oversized(#[trigger] candidates@[m], goal_limit as nat),
        decreases candidates@.len() - c,
    {
        if candidate_oversized(&candidates[c], goal_limit) {
            return Err(
                (
                    "FP_LIMIT_CANDIDATE",
                    cat3(
                        "candidate id, goal, observation, or restriction exceeds the ",
                        surface,
                        " probe limit",
                    ),
                ),
            );
        }
        c = c + 1;
    }
    Ok(())
}

// ----- the corridor fixture ---------------------------------------------------------

/// The corridor domain: rooms joined by links, a `go` move and a `seal`
/// action that no plan needs.
pub const CORRIDOR_DOMAIN: &'static str = "(define (domain corridor)
  (:requirements :strips :typing)
  (:types room)
  (:predicates (at ?r - room) (link ?a - room ?b - room) (clear ?r - room))
  (:action go
    :parameters (?a - room ?b - room)
    :precondition (and (at ?a) (link ?a ?b) (clear ?b))
    :effect (and (at ?b) (not (at ?a))))
  (:action seal
    :parameters (?r - room)
    :precondition (clear ?r)
    :effect (not (clear ?r))))";

pub open spec fn nm(prefix: Seq<char>, i: nat, suffix: Seq<char>) -> Seq<char> {
    prefix + dec(i) + suffix
}

/// The main-line rooms `r0 .. r(k-1)`.
pub open spec fn rooms(k: nat) -> Seq<Seq<char>> {
    Seq::new(k, |i: int| nm("r"@, i as nat, ""@))
}

/// `(clear r0) .. (clear r(k-1))`.
pub open spec fn room_clears(k: nat) -> Seq<Seq<char>> {
    Seq::new(k, |i: int| nm("(clear r"@, i as nat, ")"@))
}

/// The detour rooms `x_i y_i` beside hop `i`, when the detour fits.
pub open spec fn detour_rooms(n: nat, i: nat) -> Seq<Seq<char>> {
    if i + 2 <= n {
        seq![nm("x"@, i, ""@), nm("y"@, i, ""@)]
    } else {
        seq![]
    }
}

/// The init facts of hop `i`: its main-line link, then the detour's facts.
pub open spec fn hop_facts(n: nat, i: nat) -> Seq<Seq<char>> {
    seq![nm("(link r"@, i, ""@) + nm(" r"@, i + 1, ")"@)] + if i + 2 <= n {
        seq![
            nm("(clear x"@, i, ")"@),
            nm("(clear y"@, i, ")"@),
            nm("(link r"@, i, ""@) + nm(" x"@, i, ")"@),
            nm("(link x"@, i, ""@) + nm(" y"@, i, ")"@),
            nm("(link y"@, i, ""@) + nm(" r"@, i + 2, ")"@),
        ]
    } else {
        seq![]
    }
}

pub open spec fn all_detours(n: nat, k: nat) -> Seq<Seq<char>>
    decreases k,
{
    if k == 0 {
        seq![]
    } else {
        all_detours(n, (k - 1) as nat) + detour_rooms(n, (k - 1) as nat)
    }
}

pub open spec fn all_hops(n: nat, k: nat) -> Seq<Seq<char>>
    decreases k,
{
    if k == 0 {
        seq![]
    } else {
        all_hops(n, (k - 1) as nat) + hop_facts(n, (k - 1) as nat)
    }
}

/// The corridor problem of size `n`, as text.
pub open spec fn corridor_text(n: nat) -> Seq<char> {
    "(define (problem corridor"@ + dec(n) + ") (:domain corridor) (:objects "@ + join_sp(
        rooms(n + 1) + all_detours(n, n),
    ) + " - room) (:init "@ + join_sp(seq!["(at r0)"@] + room_clears(n + 1) + all_hops(n, n))
        + ") (:goal (at r"@ + dec(n) + ")))"@
}

fn link(a: &str, i: usize, b: &str, j: usize) -> (s: String)
    ensures
        s@ == nm("(link "@ + a@, i as nat, ""@) + nm(" "@ + b@, j as nat, ")"@),
{
    let mut s = String::from_str("(link ");
    s.append(a);
    let x = numbered("", i, "");
    s.append(x.as_str());
    s.append(" ");
    s.append(b);
    let y = numbered("", j, ")");
    s.append(y.as_str());
    proof {
        reveal_strlit("");
        assert(s@ =~= nm("(link "@ + a@, i as nat, ""@) + nm(" "@ + b@, j as nat, ")"@));
    }
    s
}

/// The deterministic corridor problem `r0 .. rn`, with a detour
/// `ri -> xi -> yi -> r(i+2)` beside every main-line hop that has room for
/// one; the goal is `(at rn)`.
pub fn corridor_problem(n: usize) -> (s: String)
    requires
        n < usize::MAX - 2,
    ensures
        s@ == corridor_text(n as nat),
{
    let mut objects: Vec<String> = Vec::new();
    let mut init: Vec<String> = Vec::new();
    init.push(String::from_str("(at r0)"));
    let mut i: usize = 0;
    while i <= n
        invariant
            n < usize::MAX - 2,
            i <= n + 1,
            views(objects@) == rooms(i as nat),
            views(init@) == seq!["(at r0)"@] + room_clears(i as nat),
        decreases n + 1 - i,
    {
        let ghost o0 = objects@;
        let ghost i0 = init@;
        let r = numbered("r", i, "");
        let c = numbered("(clear r", i, ")");
        objects.push(r);
        init.push(c);
        proof {
            assert(objects@ == o0.push(r));
            assert(views(objects@) =~= views(o0).push(r@));
            assert(views(init@) =~= views(i0).push(c@));
            assert(views(objects@) =~= rooms((i + 1) as nat));
            assert(views(init@) =~= seq!["(at r0)"@] + room_clears((i + 1) as nat));
        }
        i = i + 1;
    }
    let ghost base_objects = views(objects@);
    let ghost base_init = views(init@);
    let mut i: usize = 0;
    while i < n
        invariant
            n < usize::MAX - 2,
            i <= n,
            base_objects == rooms((n + 1) as nat),
            base_init == seq!["(at r0)"@] + room_clears((n + 1) as nat),
            views(objects@) == base_objects + all_detours(n as nat, i as nat),
            views(init@) == base_init + all_hops(n as nat, i as nat),
        decreases n - i,
    {
        let ghost o0 = objects@;
        let ghost i0 = init@;
        let l0 = link("r", i, "r", i + 1);
        let ghost v0 = l0@;
        init.push(l0);
        if i + 2 <= n {
            let xo = numbered("x", i, "");
            let yo = numbered("y", i, "");
            let cx = numbered("(clear x", i, ")");
            let cy = numbered("(clear y", i, ")");
            let l1 = link("r", i, "x", i);
            let l2 = link("x", i, "y", i);
            let l3 = link("y", i, "r", i + 2);
            let ghost added = seq![cx@, cy@, l1@, l2@, l3@];
            objects.push(xo);
            objects.push(yo);
            init.push(cx);
            init.push(cy);
            init.push(l1);
            init.push(l2);
            init.push(l3);
            proof {
                assert(views(objects@) =~= views(o0) + seq![xo@, yo@]);
                assert(views(init@) =~= views(i0) + seq![v0] + added);
            }
        } else {
            proof {
                assert(views(objects@) =~= views(o0));
                assert(views(init@) =~= views(i0) + seq![v0]);
            }
        }
        proof {
            assert(("(link "@ + "r"@) =~= "(link r"@) by {
                reveal_strlit("(link ");
                reveal_strlit("r");
                reveal_strlit("(link r");
            }
            assert(("(link "@ + "x"@) =~= "(link x"@) by {
                reveal_strlit("(link ");
                reveal_strlit("x");
                reveal_strlit("(link x");
            }
            assert(("(link "@ + "y"@) =~= "(link y"@) by {
                reveal_strlit("(link ");
                reveal_strlit("y");
                reveal_strlit("(link y");
            }
            assert((" "@ + "r"@) =~= " r"@) by {
                reveal_strlit(" ");
                reveal_strlit("r");
                reveal_strlit(" r");
            }
            assert((" "@ + "x"@) =~= " x"@) by {
                reveal_strlit(" ");
                reveal_strlit("x");
                reveal_strlit(" x");
            }
            assert((" "@ + "y"@) =~= " y"@) by {
                reveal_strlit(" ");
                reveal_strlit("y");
                reveal_strlit(" y");
            }
            assert(views(objects@) =~= base_objects + all_detours(n as nat, (i + 1) as nat));
            assert(views(init@) =~= base_init + all_hops(n as nat, (i + 1) as nat));
        }
        i = i + 1;
    }
    let objs = join_spaces(&objects);
    let facts = join_spaces(&init);
    let mut s = numbered("(define (problem corridor", n, ") (:domain corridor) (:objects ");
    s.append(objs.as_str());
    s.append(" - room) (:init ");
    s.append(facts.as_str());
    let tail = numbered(") (:goal (at r", n, ")))");
    s.append(tail.as_str());
    s
}

// ----- the repair router -----------------------------------------------------------------

/// Where the repair router goes, cheapest reversible option first.
#[derive(Clone, Copy, Debug, PartialEq, Eq)]
pub enum RepairRoute {
    /// The goal already holds: nothing to repair.
    GoalMet,
    /// The stashed plan's remaining suffix still applies: reuse it, no
    /// search.
    ReuseSuffix,
    /// The stashed plan broke: replan, following its still-applicable
    /// steps.
    Follow,
    /// No plan is stashed: a full bounded replan.
    Full,
}

/// The route for what the session answers: the goal first, then whether
/// a plan is stashed, then whether its remaining suffix still applies.
pub open spec fn route_of(goal_met: bool, stashed: bool, suffix_valid: bool) -> RepairRoute {
    if goal_met {
        RepairRoute::GoalMet
    } else if !stashed {
        RepairRoute::Full
    } else if suffix_valid {
        RepairRoute::ReuseSuffix
    } else {
        RepairRoute::Follow
    }
}

/// The route for what the session answers: whether the goal holds, whether
/// a plan is stashed, and (asked only of a stashed plan) whether its
/// remaining suffix still applies.
pub fn repair_route(goal_met: bool, stashed: bool, suffix_valid: bool) -> (r: RepairRoute)
    ensures
        r == route_of(goal_met, stashed, suffix_valid),
{
    if goal_met {
        RepairRoute::GoalMet
    } else if !stashed {
        RepairRoute::Full
    } else if suffix_valid {
        RepairRoute::ReuseSuffix
    } else {
        RepairRoute::Follow
    }
}

/// Whether a route searches.
pub open spec fn searches(r: RepairRoute) -> bool {
    r == RepairRoute::Follow || r == RepairRoute::Full
}

/// What the router reports: its decision, what triggered it, and what it
/// knows of the stashed plan's validity.
pub struct RepairReport {
    pub decision: &'static str,
    pub trigger: &'static str,
    pub plan_valid: Option<bool>,
}

/// The report of a route; `solved` is whether the search, if any, solved.
pub fn repair_report(route: RepairRoute, solved: bool) -> (r: RepairReport)
    ensures
        route == RepairRoute::GoalMet ==> r.decision == "goal_met" && r.trigger == "goal_met"
            && r.plan_valid is None,
        route == RepairRoute::ReuseSuffix ==> r.decision == "reuse_suffix" && r.trigger == "none"
            && r.plan_valid == Some(true),
        route == RepairRoute::Follow ==> r.decision == (if solved {
            "replanned_following"
        } else {
            "replan_unsolved"
        }) && r.trigger == "invalid_plan" && r.plan_valid == Some(false),
        route == RepairRoute::Full ==> r.decision == (if solved {
            "replanned_full"
        } else {
            "replan_unsolved"
        }) && r.trigger == "no_plan" && r.plan_valid is None,
{
    match route {
        RepairRoute::GoalMet => RepairReport { decision: "goal_met", trigger: "goal_met", plan_valid: None },
        RepairRoute::ReuseSuffix => RepairReport {
            decision: "reuse_suffix",
            trigger: "none",
            plan_valid: Some(true),
        },
        RepairRoute::Follow => RepairReport {
            decision: if solved {
                "replanned_following"
            } else {
                "replan_unsolved"
            },
            trigger: "invalid_plan",
            plan_valid: Some(false),
        },
        RepairRoute::Full => RepairReport {
            decision: if solved {
                "replanned_full"
            } else {
                "replan_unsolved"
            },
            trigger: "no_plan",
            plan_valid: None,
        },
    }
}

/// Where the stashed plan's remaining suffix starts: at the cursor, or at
/// the plan's end when the cursor ran past it.
pub fn suffix_start(cursor: usize, steps: usize) -> (r: usize)
    ensures
        r == if cursor <= steps {
            cursor
        } else {
            steps
        },
{
    if cursor <= steps {
        cursor
    } else {
        steps
    }
}

/// The router keeps the cheapest reversible option: it never searches when
/// the goal holds or the stashed suffix still applies, replans in full only
/// when nothing is stashed, and follows a stashed plan whenever it does
/// search with one.
pub proof fn law_repair_prefers_the_cheapest_option(goal_met: bool, stashed: bool, suffix_valid: bool)
    ensures
        ({
            let r = route_of(goal_met, stashed, suffix_valid);
            &&& (goal_met || (stashed && suffix_valid)) ==> !searches(r)
            &&& r == RepairRoute::Full <==> (!goal_met && !stashed)
            &&& (stashed && searches(r)) ==> r == RepairRoute::Follow
        }),
{
}

} // verus!
