# ferroplan

The verified core of a planning engine's ingress, guards and bookkeeping,
written in Verus: every function in `src/` carries a contract that Verus
proves.

## Layout

- `src/` — the library.
  - `eve` — Eve requests: field validation, the activator split rule, the
    lifecycle stages, and the BLAKE3 closure identity with its framed
    preimage (and the proof that the preimage binds every field).
  - `hddl` — the HDDL bridge's text logic: splicing Eve's root task into a
    problem, comparing root task networks, the error codes.
  - `full_planning` — policy sessions (decide, advance, observe, fork), the
    breadth-first closure walk over a synthesized policy, and section
    rewriting of problem texts.
  - `receipt`, `digest` — policy receipts, their payload rebuilt from their
    own fields, and their chains (with the proofs that a bound receipt
    verifies and that changing any payload field changes the payload);
    BLAKE3 digests over length-framed bytes.
  - `probe_guard`, `dfcm_route` — admission of counterfactual probe
    requests: id bounds, duplicates, contradictory sightings, fact keys.
  - `readiness` — the readiness verifier's command line and evidence files.
  - `binding` — an action's parameter bindings: domains narrowed by unary
    statics, then a walk that prunes each subtree at the first static
    literal that fails, in declaration order or in the most-constrained
    order sorted back to row-major (with the proof that both give one
    list), under a tick budget.
  - `reach` — relaxed reachability over ground operators as the least
    closed fact set (with the proof that every run of the operators stays
    inside it), and the goal analysis after it: met by inertia, refuted by
    an unreached fact, or left for search; and the compaction of the fact
    space that keeps the old order.
  - `dnf`, `effect`, `action`, `intern`, `grounding`, `ground` — grounding
    a lifted task: preconditions to disjunctive normal form (with static
    atoms folded away), effects expanded under a binding, each action's
    operators over its surviving bindings, the fact table the operators,
    the initial state and the goal name, relaxed reachability over it, and
    the goal simplification that ends in a task, a true goal, a false one,
    or an exhausted tick budget.
  - `monitor`, `constraints` — trajectory constraints: the monitor
    automaton of each untimed modal operator (with the proof that no
    monitor sets and clears one fact in the same state), the preference
    tiers' numbering of soft nodes and their static deadness, and the
    compilation of a task's constraint instances into monitor facts,
    the shared transition block, goal preferences and the end action; the
    names compiling reserves, and the fence that refuses a task using
    them.
  - `claims` — the claims policy over an actor's action surface.
  - `features`, `wire` — the engine's tri-state switches; the wire names of
    modes, searches and flags, and the input and budget limits of the
    adapters.
  - `bitset`, `hash`, `text`, `types`, `costs`, `api` — flags over
    words, FxHash, text helpers, and small pieces of the planner's
    vocabulary.
- `tests/` — tests against the library's public interface.
- `app/` — the process edge: process-wide switches and the environment,
  the clock, std `Hasher` for FxHash, canonical JSON, evidence files, floating point,
  and `Display` for the error types.

`blake3` is called from the library through one trusted wrapper, and
`serde_json` through one that renders a string as JSON; `serde`,
`serde_json` and `thiserror` are otherwise used by `app/` only.
