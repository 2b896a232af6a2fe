//! The names that compiling `(:constraints ...)` reserves for itself, and
//! the fence that refuses a domain or problem using them: trajectory-monitor
//! facts, the monitor fluents, the synthetic end action, and the names
//! generated for anonymous preferences.

use vstd::prelude::*;
use crate::action::Action;
use crate::binding::{atom_views, strs, AtomView};
use crate::dnf::Formula;
use crate::effect::Effect;
use crate::monitor::{
    all_insts, and2, cat_acc, cat_facts, cat_trans, conj_of, emit_all, fact0, fact_atom, fact_views, fview,
    fviews, lemma_fviews_index, lemma_fviews_len, mfact, mons, soft_start, trans_views, Emitted, FormulaView, Instance,
    MonitorView, Transition,
};
use crate::text::{cat3, chars_are, chars_of, numbered};
use crate::types::Sym;

verus! {

/// The forced-terminal acceptance action of the compiled constraints.
pub const END_ACTION: &'static str = "TRAJ-END";

/// The decision-epoch clock fluent of the timed constraint lowering.
pub const CLOCK_FLUENT: &'static str = "TRAJ-CLOCK";

/// Every character is an ASCII digit.
pub open spec fn all_digits(s: Seq<char>) -> bool {
    forall|i: int| 0 <= i < s.len() ==> '0' <= #[trigger] s[i] && s[i] <= '9'
}

/// Index of the first `-` of `s`, or `s.len()` when there is none.
pub open spec fn dash_at(s: Seq<char>) -> int
    decreases s.len(),
{
    if s.len() == 0 {
        0
    } else if s[0] == '-' {
        0
    } else {
        1 + dash_at(s.drop_first())
    }
}

/// What `s.splitn(2, '-')` yields first: everything before the first `-`.
pub open spec fn before_dash(s: Seq<char>) -> Seq<char> {
    s.take(dash_at(s))
}

/// What `s.splitn(2, '-')` yields second, or nothing: everything after the
/// first `-`.
pub open spec fn after_dash(s: Seq<char>) -> Seq<char> {
    if dash_at(s) < s.len() {
        s.skip(dash_at(s) + 1)
    } else {
        seq![]
    }
}

/// `TRAJ`, digits, `-`, then one of the given suffixes (as `rest` after
/// `TRAJ` splits at its first `-`).
pub open spec fn numbered_monitor(n: Seq<char>, suffix_ok: spec_fn(Seq<char>) -> bool) -> bool {
    &&& n.len() >= 4 && n.take(4) == "TRAJ"@
    &&& before_dash(n.skip(4)).len() > 0
    &&& all_digits(before_dash(n.skip(4)))
    &&& suffix_ok(after_dash(n.skip(4)))
}

/// A trajectory-monitor fact name: `TRAJ-PLANNING`, `TRAJ-ENDED`, or
/// `TRAJ<n>-VIOL/SEEN/HOLD/PEND/SAFE/ACC`.
pub open spec fn monitor_fact(n: Seq<char>) -> bool {
    n == "TRAJ-PLANNING"@ || n == "TRAJ-ENDED"@ || numbered_monitor(
        n,
        |suf: Seq<char>|
            suf == "VIOL"@ || suf == "SEEN"@ || suf == "HOLD"@ || suf == "PEND"@ || suf == "SAFE"@
                || suf == "ACC"@,
    )
}

/// A trajectory-monitor fluent name: `TRAJ-CLOCK` or `TRAJ<n>-DUE`.
pub open spec fn monitor_fluent(n: Seq<char>) -> bool {
    n == CLOCK_FLUENT@ || numbered_monitor(n, |suf: Seq<char>| suf == "DUE"@)
}

/// A generated anonymous-preference name: `TRAJPREF<n>`.
pub open spec fn anon_pref(n: Seq<char>) -> bool {
    n.len() > 8 && n.take(8) == "TRAJPREF"@ && all_digits(n.skip(8))
}

/// Index of the first name satisfying `p`, or -1.
pub open spec fn first_where(names: Seq<Seq<char>>, p: spec_fn(Seq<char>) -> bool) -> int
    decreases names.len(),
{
    if names.len() == 0 {
        -1
    } else if p(names[0]) {
        0
    } else {
        let k = first_where(names.drop_first(), p);
        if k < 0 {
            -1
        } else {
            k + 1
        }
    }
}

/// The four name tests, as predicates over names.
pub open spec fn fact_test() -> spec_fn(Seq<char>) -> bool {
    |n: Seq<char>| monitor_fact(n)
}

pub open spec fn fluent_test() -> spec_fn(Seq<char>) -> bool {
    |n: Seq<char>| monitor_fluent(n)
}

pub open spec fn end_action_test() -> spec_fn(Seq<char>) -> bool {
    |n: Seq<char>| n == END_ACTION@
}

pub open spec fn anon_pref_test() -> spec_fn(Seq<char>) -> bool {
    |n: Seq<char>| anon_pref(n)
}

pub open spec fn predicate_message(n: Seq<char>) -> Seq<char> {
    "predicate `"@ + n
        + "` collides with ferroplan's reserved trajectory-monitor namespace (TRAJ{n}-VIOL/SEEN/HOLD/PEND/SAFE/ACC, TRAJ-PLANNING, TRAJ-ENDED) used to compile (:constraints ...); rename the predicate"@
}

pub open spec fn function_message(n: Seq<char>) -> Seq<char> {
    "function `"@ + n
        + "` collides with ferroplan's reserved trajectory-monitor fluent namespace (TRAJ-CLOCK, TRAJ{n}-DUE) used to compile timed (:constraints ...); rename the function"@
}

pub open spec fn action_message(n: Seq<char>) -> Seq<char> {
    "action `"@ + n
        + "` collides with ferroplan's reserved trajectory end-action name (`TRAJ-END`) used to compile (:constraints ...); rename the action"@
}

pub open spec fn preference_message(n: Seq<char>) -> Seq<char> {
    "preference name `"@ + n
        + "` collides with ferroplan's reserved TRAJPREF{n} namespace (generated for anonymous constraint preferences); rename the preference"@
}

/// What the fence answers: the first predicate that is a monitor fact, else
/// the first function that is a monitor fluent, else the first action named
/// like the end action, else the first user preference named like a
/// generated one; `None` when nothing collides.
pub open spec fn reserved_refusal(
    predicates: Seq<Seq<char>>,
    functions: Seq<Seq<char>>,
    actions: Seq<Seq<char>>,
    preferences: Seq<Seq<char>>,
) -> Option<Seq<char>> {
    let p = first_where(predicates, fact_test());
    let f = first_where(functions, fluent_test());
    let a = first_where(actions, end_action_test());
    let u = first_where(preferences, anon_pref_test());
    if p >= 0 {
        Some(predicate_message(predicates[p]))
    } else if f >= 0 {
        Some(function_message(functions[f]))
    } else if a >= 0 {
        Some(action_message(actions[a]))
    } else if u >= 0 {
        Some(preference_message(preferences[u]))
    } else {
        None
    }
}

proof fn lemma_first_where(names: Seq<Seq<char>>, p: spec_fn(Seq<char>) -> bool, i: int)
    requires
        0 <= i <= names.len(),
        forall|k: int| 0 <= k < i ==> !p(#[trigger] names[k]),
    ensures
        i < names.len() && p(names[i]) ==> first_where(names, p) == i,
        i == names.len() ==> first_where(names, p) == -1,
    decreases names.len(),
{
    if names.len() > 0 {
        if i > 0 {
            assert forall|k: int| 0 <= k < i - 1 implies !p(#[trigger] names.drop_first()[k]) by {
                assert(names.drop_first()[k] == names[k + 1]);
            }
            lemma_first_where(names.drop_first(), p, i - 1);
            if i < names.len() {
                assert(names.drop_first()[i - 1] == names[i]);
            }
        }
    }
}

fn digits_only(s: &[char], from: usize, to: usize) -> (b: bool)
    requires
        from <= to <= s@.len(),
    ensures
        b == all_digits(s@.subrange(from as int, to as int)),
{
    let mut i: usize = from;
    while i < to
        invariant
            from <= i <= to <= s@.len(),
            forall|k: int| from <= k < i ==> '0' <= #[trigger] s@[k] && s@[k] <= '9',
        decreases to - i,
    {
        if !('0' <= s[i] && s[i] <= '9') {
            assert(s@.subrange(from as int, to as int)[i - from] == s@[i as int]);
            return false;
        }
        i = i + 1;
    }
    assert forall|k: int| 0 <= k < to - from implies '0' <= #[trigger] s@.subrange(
        from as int,
        to as int,
    )[k] && s@.subrange(from as int, to as int)[k] <= '9' by {
        assert(s@.subrange(from as int, to as int)[k] == s@[from + k]);
    }
    true
}

fn starts_traj(s: &[char], lit: &str) -> (b: bool)
    ensures
        b == (s@.len() >= lit@.len() && s@.take(lit@.len() as int) == lit@),
{
    let l = chars_of(lit);
    if s.len() < l.len() {
        return false;
    }
    let mut i: usize = 0;
    while i < l.len()
        invariant
            i <= l@.len() <= s@.len(),
            l@ == lit@,
            forall|k: int| 0 <= k < i ==> s@[k] == l@[k],
        decreases l@.len() - i,
    {
        if s[i] != l[i] {
            assert(s@.take(l@.len() as int)[i as int] != l@[i as int]);
            return false;
        }
        i = i + 1;
    }
    assert(s@.take(l@.len() as int) =~= l@);
    true
}

proof fn lemma_dash_at(s: Seq<char>)
    ensures
        0 <= dash_at(s) <= s.len(),
        dash_at(s) < s.len() ==> s[dash_at(s)] == '-',
        forall|k: int| 0 <= k < dash_at(s) ==> s[k] != '-',
    decreases s.len(),
{
    if s.len() > 0 && s[0] != '-' {
        lemma_dash_at(s.drop_first());
        assert forall|k: int| 0 <= k < dash_at(s) implies s[k] != '-' by {
            if k > 0 {
                assert(s.drop_first()[k - 1] == s[k]);
            }
        }
    }
}

proof fn lemma_dash_is_first(s: Seq<char>, d: int)
    requires
        0 <= d <= s.len(),
        d < s.len() ==> s[d] == '-',
        forall|k: int| 0 <= k < d ==> s[k] != '-',
    ensures
        dash_at(s) == d,
    decreases s.len(),
{
    lemma_dash_at(s);
    if dash_at(s) < d {
        assert(s[dash_at(s)] == '-');
    } else if dash_at(s) > d {
        assert(s[d] == '-');
    }
}

/// Split a name that starts with `TRAJ` into the digits part and the suffix
/// part of what follows `TRAJ`, at its first `-`.
fn monitor_parts(n: &[char]) -> (parts: (usize, usize))
    requires
        n@.len() >= 4,
    ensures
        4 <= parts.0 <= n@.len(),
        n@.subrange(4, parts.0 as int) == before_dash(n@.skip(4)),
        parts.1 <= n@.len(),
        n@.subrange(parts.1 as int, n@.len() as int) == after_dash(n@.skip(4)),
{
    let mut d: usize = 4;
    while d < n.len() && n[d] != '-'
        invariant
            4 <= d <= n@.len(),
            forall|k: int| 4 <= k < d ==> n@[k] != '-',
        decreases n@.len() - d,
    {
        d = d + 1;
    }
    let ghost rest = n@.skip(4);
    proof {
        assert forall|k: int| 0 <= k < d - 4 implies rest[k] != '-' by {
            assert(rest[k] == n@[k + 4]);
        }
        if d < n@.len() {
            assert(rest[d - 4] == n@[d as int]);
        }
        lemma_dash_is_first(rest, d - 4);
        assert(n@.subrange(4, d as int) =~= before_dash(rest));
    }
    if d < n.len() {
        proof {
            assert(n@.subrange(d + 1, n@.len() as int) =~= after_dash(rest));
        }
        (d, d + 1)
    } else {
        proof {
            assert(n@.subrange(n@.len() as int, n@.len() as int) =~= after_dash(rest));
        }
        (d, n.len())
    }
}

/// Whether `n` is a trajectory-monitor fact name.
pub fn is_monitor_fact(n: &str) -> (b: bool)
    ensures
        b == monitor_fact(n@),
{
    let cs = chars_of(n);
    if chars_are(cs.as_slice(), "TRAJ-PLANNING") || chars_are(cs.as_slice(), "TRAJ-ENDED") {
        return true;
    }
    if !starts_traj(cs.as_slice(), "TRAJ") {
        proof {
            reveal_strlit("TRAJ");
        }
        return false;
    }
    proof {
        reveal_strlit("TRAJ");
    }
    let (d, s) = monitor_parts(cs.as_slice());
    if d == 4 || !digits_only(cs.as_slice(), 4, d) {
        return false;
    }
    let suf = slice_chars(cs.as_slice(), s, cs.len());
    chars_are(suf.as_slice(), "VIOL") || chars_are(suf.as_slice(), "SEEN") || chars_are(
        suf.as_slice(),
        "HOLD",
    ) || chars_are(suf.as_slice(), "PEND") || chars_are(suf.as_slice(), "SAFE") || chars_are(
        suf.as_slice(),
        "ACC",
    )
}

/// Whether `n` is a trajectory-monitor fluent name.
pub fn is_monitor_fluent(n: &str) -> (b: bool)
    ensures
        b == monitor_fluent(n@),
{
    let cs = chars_of(n);
    if chars_are(cs.as_slice(), CLOCK_FLUENT) {
        return true;
    }
    if !starts_traj(cs.as_slice(), "TRAJ") {
        proof {
            reveal_strlit("TRAJ");
            reveal_strlit("TRAJ-CLOCK");
        }
        return false;
    }
    proof {
        reveal_strlit("TRAJ");
    }
    let (d, s) = monitor_parts(cs.as_slice());
    if d == 4 || !digits_only(cs.as_slice(), 4, d) {
        return false;
    }
    let suf = slice_chars(cs.as_slice(), s, cs.len());
    chars_are(suf.as_slice(), "DUE")
}

/// Whether `n` is a generated anonymous-preference name.
pub fn is_anon_pref(n: &str) -> (b: bool)
    ensures
        b == anon_pref(n@),
{
    let cs = chars_of(n);
    proof {
        reveal_strlit("TRAJPREF");
    }
    if cs.len() <= 8 || !starts_traj(cs.as_slice(), "TRAJPREF") {
        return false;
    }
    let r = digits_only(cs.as_slice(), 8, cs.len());
    proof {
        assert(cs@.subrange(8, cs@.len() as int) =~= cs@.skip(8));
    }
    r
}

fn slice_chars(s: &[char], from: usize, to: usize) -> (v: Vec<char>)
    requires
        from <= to <= s@.len(),
    ensures
        v@ == s@.subrange(from as int, to as int),
{
    let mut v: Vec<char> = Vec::new();
    let mut i: usize = from;
    while i < to
        invariant
            from <= i <= to <= s@.len(),
            v@ == s@.subrange(from as int, i as int),
        decreases to - i,
    {
        v.push(s[i]);
        i = i + 1;
        assert(v@ =~= s@.subrange(from as int, i as int));
    }
    v
}

/// Refuse a domain and problem whose names collide with what compiling
/// `(:constraints ...)` generates: a predicate named like a
/// trajectory-monitor fact, a function named like a monitor fluent, an
/// action named like the end action, or a user preference named like a
/// generated anonymous one. The names are checked in that order, each list
/// in its own order, and the first collision is reported.
pub fn reject_reserved_names(
    predicates: &[String],
    functions: &[String],
    actions: &[String],
    preferences: &[String],
) -> (r: Result<(), String>)
    ensures
        match reserved_refusal(
            predicates@.map_values(|s: String| s@),
            functions@.map_values(|s: String| s@),
            actions@.map_values(|s: String| s@),
            preferences@.map_values(|s: String| s@),
        ) {
            None => r is Ok,
            Some(m) => r matches Err(e) && e@ == m,
        },
{
    let ghost ps = predicates@.map_values(|s: String| s@);
    let ghost fs = functions@.map_values(|s: String| s@);
    let ghost acts = actions@.map_values(|s: String| s@);
    let ghost us = preferences@.map_values(|s: String| s@);
    let mut i: usize = 0;
    while i < predicates.len()
        invariant
            i <= predicates@.len(),
            ps == predicates@.map_values(|s: String| s@),
            forall|k: int| 0 <= k < i ==> !monitor_fact(#[trigger] ps[k]),
        decreases predicates@.len() - i,
    {
        if is_monitor_fact(predicates[i].as_str()) {
            proof {
                lemma_first_where(ps, fact_test(), i as int);
            }
            return Err(
                cat3(
                    "predicate `",
                    predicates[i].as_str(),
                    "` collides with ferroplan's reserved trajectory-monitor namespace (TRAJ{n}-VIOL/SEEN/HOLD/PEND/SAFE/ACC, TRAJ-PLANNING, TRAJ-ENDED) used to compile (:constraints ...); rename the predicate",
                ),
            );
        }
        i = i + 1;
    }
    proof {
        lemma_first_where(ps, fact_test(), i as int);
    }
    let mut j: usize = 0;
    while j < functions.len()
        invariant
            j <= functions@.len(),
            ps == predicates@.map_values(|s: String| s@),
            fs == functions@.map_values(|s: String| s@),
            first_where(ps, fact_test()) == -1,
            forall|k: int| 0 <= k < j ==> !monitor_fluent(#[trigger] fs[k]),
        decreases functions@.len() - j,
    {
        if is_monitor_fluent(functions[j].as_str()) {
            proof {
                lemma_first_where(fs, fluent_test(), j as int);
            }
            return Err(
                cat3(
                    "function `",
                    functions[j].as_str(),
                    "` collides with ferroplan's reserved trajectory-monitor fluent namespace (TRAJ-CLOCK, TRAJ{n}-DUE) used to compile timed (:constraints ...); rename the function",
                ),
            );
        }
        j = j + 1;
    }
    proof {
        lemma_first_where(fs, fluent_test(), j as int);
    }
    let mut a: usize = 0;
    while a < actions.len()
        invariant
            a <= actions@.len(),
            ps == predicates@.map_values(|s: String| s@),
            fs == functions@.map_values(|s: String| s@),
            acts == actions@.map_values(|s: String| s@),
            first_where(ps, fact_test()) == -1,
            first_where(fs, fluent_test()) == -1,
            forall|k: int| 0 <= k < a ==> #[trigger] acts[k] != END_ACTION@,
        decreases actions@.len() - a,
    {
        if crate::text::str_eq(actions[a].as_str(), END_ACTION) {
            proof {
                lemma_first_where(acts, end_action_test(), a as int);
            }
            return Err(
                cat3(
                    "action `",
                    actions[a].as_str(),
                    "` collides with ferroplan's reserved trajectory end-action name (`TRAJ-END`) used to compile (:constraints ...); rename the action",
                ),
            );
        }
        a = a + 1;
    }
    proof {
        lemma_first_where(acts, end_action_test(), a as int);
    }
    let mut u: usize = 0;
    while u < preferences.len()
        invariant
            u <= preferences@.len(),
            ps == predicates@.map_values(|s: String| s@),
            fs == functions@.map_values(|s: String| s@),
            acts == actions@.map_values(|s: String| s@),
            us == preferences@.map_values(|s: String| s@),
            first_where(ps, fact_test()) == -1,
            first_where(fs, fluent_test()) == -1,
            first_where(acts, end_action_test()) == -1,
            forall|k: int| 0 <= k < u ==> !anon_pref(#[trigger] us[k]),
        decreases preferences@.len() - u,
    {
        if is_anon_pref(preferences[u].as_str()) {
            proof {
                lemma_first_where(us, anon_pref_test(), u as int);
            }
            return Err(
                cat3(
                    "preference name `",
                    preferences[u].as_str(),
                    "` collides with ferroplan's reserved TRAJPREF{n} namespace (generated for anonymous constraint preferences); rename the preference",
                ),
            );
        }
        u = u + 1;
    }
    proof {
        lemma_first_where(us, anon_pref_test(), u as int);
    }
    Ok(())
}


/// A planning task as constraint compilation reads and rewrites it.
pub struct PlanTask {
    /// The predicate names.
    pub predicates: Vec<Sym>,
    /// The function names.
    pub functions: Vec<Sym>,
    /// The preference names the task already uses.
    pub preferences: Vec<Sym>,
    pub actions: Vec<Action>,
    pub init: Vec<(Sym, Vec<Sym>)>,
    pub goal: Formula,
    /// The shared monitor block that every monitored action carries.
    pub monitors: Vec<Transition>,
}

/// The phase fact every real action needs until the end action fires.
pub open spec fn planning() -> Seq<char> {
    "TRAJ-PLANNING"@
}

/// The fact the end action raises.
pub open spec fn ended() -> Seq<char> {
    "TRAJ-ENDED"@
}

pub open spec fn action_names(acts: Seq<Action>) -> Seq<Seq<char>> {
    acts.map_values(|a: Action| a.name@)
}

/// The refusal of `t`'s reserved names, if any.
pub open spec fn task_refusal(t: PlanTask) -> Option<Seq<char>> {
    reserved_refusal(
        t.predicates@.map_values(|s: String| s@),
        t.functions@.map_values(|s: String| s@),
        action_names(t.actions@),
        t.preferences@.map_values(|s: String| s@),
    )
}

/// The initial atoms the monitor facts that start true give.
pub open spec fn init_adds(fs: Seq<(Seq<char>, bool)>) -> Seq<AtomView>
    decreases fs.len(),
{
    if fs.len() == 0 {
        seq![]
    } else if fs.last().1 {
        init_adds(fs.drop_last()).push((fs.last().0, seq![]))
    } else {
        init_adds(fs.drop_last())
    }
}

/// One formula for nonempty conjuncts: the conjunct itself when alone.
pub open spec fn conj1(acc: Seq<FormulaView>) -> FormulaView {
    if acc.len() == 1 {
        acc[0]
    } else {
        FormulaView::And(acc)
    }
}

/// Whether `a` is the end action for the hard monitors `ms`: it needs the
/// planning phase, closes it, raises the ended fact, and latches each hard
/// monitor's acceptance into its own fact.
pub open spec fn end_action_ok(a: Action, ms: Seq<MonitorView>) -> bool {
    &&& a.name@ == END_ACTION@
    &&& a.params@.len() == 0
    &&& fview(a.precond) == fact0(planning())
    &&& !a.monitored
    &&& a.effect matches Effect::And(es) && end_effects_ok(es@, ms)
}

/// Whether `e` adds the 0-ary fact `name`.
pub open spec fn adds0(e: Effect, name: Seq<char>) -> bool {
    e matches Effect::Add(n, args) && n@ == name && args@.len() == 0
}

/// Whether `e` deletes the 0-ary fact `name`.
pub open spec fn dels0(e: Effect, name: Seq<char>) -> bool {
    e matches Effect::Del(n, args) && n@ == name && args@.len() == 0
}

/// Whether `e` latches the acceptance `acc` into the fact `name`.
pub open spec fn latch(e: Effect, acc: Seq<FormulaView>, name: Seq<char>) -> bool {
    e matches Effect::When(c, b) && fview(c) == conj1(acc) && adds0(*b, name)
}

pub open spec fn end_effects_ok(es: Seq<Effect>, ms: Seq<MonitorView>) -> bool {
    &&& es.len() == ms.len() + 2
    &&& dels0(es[0], planning())
    &&& adds0(es[1], ended())
    &&& forall|k: int| 0 <= k < ms.len() ==> latch(#[trigger] es[k + 2], ms[k].2, mfact(k as nat, "-ACC"@))
}

/// The goal preferences of the soft constraints.
pub open spec fn pref_views(hard: Seq<Instance>, soft: Seq<(Sym, Vec<Instance>)>) -> Seq<FormulaView> {
    let ms = mons(all_insts(hard, soft));
    Seq::new(
        soft.len(),
        |g: int|
            FormulaView::Pref(
                Some(soft[g].0@),
                Box::new(
                    conj_of(cat_acc(ms.subrange(soft_start(hard, soft, g), soft_start(hard, soft, g) + soft[g].1.len()))),
                ),
            ),
    )
}

/// What the compiled goal adds after the preferences when hard
/// constraints exist: each acceptance fact, then the ended fact.
pub open spec fn end_goal(h: nat) -> Seq<FormulaView> {
    Seq::new(h, |k: int| fact0(mfact(k as nat, "-ACC"@))).push(fact0(ended()))
}

/// Whether `o` is `t` with the constraint instances `hard` and `soft`
/// compiled into monitors.
pub open spec fn compiled(t: PlanTask, hard: Seq<Instance>, soft: Seq<(Sym, Vec<Instance>)>, o: PlanTask) -> bool {
    let ms = mons(all_insts(hard, soft));
    let h = hard.len();
    let trans = cat_trans(ms);
    let n = t.actions.len();
    if h == 0 && soft.len() == 0 {
        o == t
    } else {
        &&& strs(o.predicates@) == strs(t.predicates@) + cat_facts(ms).map_values(|d: (Seq<char>, bool)| d.0) + (if h > 0 {
            seq![planning(), ended()] + Seq::new(h, |k: int| mfact(k as nat, "-ACC"@))
        } else {
            seq![]
        })
        &&& atom_views(o.init@) == atom_views(t.init@) + init_adds(cat_facts(ms)) + (if h > 0 {
            seq![(planning(), Seq::<Seq<char>>::empty())]
        } else {
            seq![]
        })
        &&& o.functions == t.functions
        &&& o.preferences == t.preferences
        &&& trans_views(o.monitors@) == (if trans.len() > 0 {
            trans
        } else {
            trans_views(t.monitors@)
        })
        &&& o.actions.len() == n + (if h > 0 {
            1int
        } else {
            0int
        })
        &&& forall|k: int|
            0 <= k < n ==> {
                let a = #[trigger] o.actions@[k];
                let b = t.actions@[k];
                &&& a.name == b.name && a.params == b.params && a.effect == b.effect
                &&& a.monitored == (b.monitored || trans.len() > 0)
                &&& if h > 0 {
                    fview(a.precond) == FormulaView::And(seq![fview(b.precond), fact0(planning())])
                } else {
                    a.precond == b.precond
                }
            }
        &&& h > 0 ==> end_action_ok(o.actions@[n as int], ms.take(h as int))
        &&& fview(o.goal) == FormulaView::And(seq![fview(t.goal)] + pref_views(hard, soft) + (if h > 0 {
            end_goal(h)
        } else {
            seq![]
        }))
    }
}

/// Compile the expanded constraint instances of `task` into monitors:
/// refuse reserved names first; with no instance at all hand the task
/// back; otherwise declare every monitor fact (initially true ones into
/// the initial state), put every transition in the shared monitor block
/// that each action then carries, add each soft constraint's preference
/// to the goal, and, when hard instances exist, gate every action on the
/// planning phase and add the end action that closes it and latches each
/// hard acceptance, whose facts and the ended fact the goal then needs.
pub fn compile(task: PlanTask, hard: &Vec<Instance>, soft: &Vec<(Sym, Vec<Instance>)>) -> (r: Result<PlanTask, String>)
    requires
        all_insts(hard@, soft@).len() < usize::MAX,
    ensures
        match task_refusal(task) {
            Some(m) => r matches Err(e) && e@ == m,
            None => r matches Ok(o) && compiled(task, hard@, soft@, o),
        },
{
    let mut names: Vec<Sym> = Vec::new();
    let mut k: usize = 0;
    while k < task.actions.len()
        invariant
            k <= task.actions.len(),
            names.len() == k,
            forall|j: int| 0 <= j < k ==> (#[trigger] names@[j])@ == task.actions@[j].name@,
        decreases task.actions.len() - k,
    {
        names.push(task.actions[k].name.clone());
        k = k + 1;
    }
    assert(names@.map_values(|s: String| s@) =~= action_names(task.actions@));
    match reject_reserved_names(
        task.predicates.as_slice(),
        task.functions.as_slice(),
        names.as_slice(),
        task.preferences.as_slice(),
    ) {
        Err(e) => {
            return Err(e);
        },
        Ok(()) => {},
    }
    if hard.len() == 0 && soft.len() == 0 {
        return Ok(task);
    }
    let ghost t = task;
    let ghost ms = mons(all_insts(hard@, soft@));
    let h = hard.len();
    let e = emit_all(hard, soft);
    let PlanTask { mut predicates, functions, preferences, actions, mut init, goal, monitors } = task;
    let Emitted { facts, transitions, hard_acc, prefs } = e;
    let ghost fv = fact_views(facts@);
    // The monitor facts, declared; the initially true ones, asserted.
    let ghost p0 = predicates@;
    let ghost i0 = init@;
    let mut j: usize = 0;
    proof {
        assert(fv.take(0) =~= Seq::<(Seq<char>, bool)>::empty());
        assert(fv.take(0).map_values(|d: (Seq<char>, bool)| d.0) =~= Seq::<Seq<char>>::empty());
        assert(strs(p0) + Seq::<Seq<char>>::empty() =~= strs(p0));
        assert(atom_views(i0) + Seq::<AtomView>::empty() =~= atom_views(i0));
    }
    while j < facts.len()
        invariant
            j <= facts.len(),
            fv == fact_views(facts@),
            strs(predicates@) == strs(p0) + fv.take(j as int).map_values(|d: (Seq<char>, bool)| d.0),
            atom_views(init@) == atom_views(i0) + init_adds(fv.take(j as int)),
        decreases facts.len() - j,
    {
        let name = facts[j].0.clone();
        let ghost pr = predicates@;
        let ghost ir = init@;
        predicates.push(name.clone());
        proof {
            assert(fv.take(j + 1).drop_last() =~= fv.take(j as int));
            assert(fv.take(j + 1).last() == fv[j as int]);
            assert(fv[j as int] == (facts@[j as int].0@, facts@[j as int].1));
            assert(fv.take(j + 1).map_values(|d: (Seq<char>, bool)| d.0) =~= fv.take(j as int).map_values(
                |d: (Seq<char>, bool)| d.0,
            ).push(name@));
            assert(strs(predicates@) =~= strs(pr).push(name@));
        }
        if facts[j].1 {
            init.push((name, Vec::new()));
            proof {
                assert(strs(init@.last().1@) =~= Seq::<Seq<char>>::empty());
                assert(atom_views(init@) =~= atom_views(ir).push((name@, Seq::<Seq<char>>::empty())));
            }
        }
        j = j + 1;
    }
    proof {
        assert(fv.take(j as int) =~= fv);
    }
    let ghost pn = predicates@;
    let ghost inn = init@;
    // The transitions ride every action as the shared monitor block.
    let any_trans = transitions.len() > 0;
    assert(any_trans == (cat_trans(ms).len() > 0));
    let monitors = if any_trans {
        transitions
    } else {
        monitors
    };
    let n = actions.len();
    let mut old = actions;
    let mut acts: Vec<Action> = Vec::new();
    let planning_name = String::from_str("TRAJ-PLANNING");
    while acts.len() < n
        invariant
            acts.len() <= n,
            n == t.actions.len(),
            old@ == t.actions@.subrange(acts.len() as int, n as int),
            planning_name@ == planning(),
            any_trans == (cat_trans(ms).len() > 0),
            forall|k: int|
                0 <= k < acts.len() ==> {
                    let a = #[trigger] acts@[k];
                    let b = t.actions@[k];
                    &&& a.name == b.name && a.params == b.params && a.effect == b.effect
                    &&& a.monitored == (b.monitored || any_trans)
                    &&& if h > 0 {
                        fview(a.precond) == FormulaView::And(seq![fview(b.precond), fact0(planning())])
                    } else {
                        a.precond == b.precond
                    }
                },
        decreases n - acts.len(),
    {
        let ghost k0 = acts.len() as int;
        let a = old.remove(0);
        assert(a == t.actions@[k0]);
        let Action { name, params, precond, effect, monitored } = a;
        let pre = if h > 0 {
            and2(precond, fact_atom(&planning_name))
        } else {
            precond
        };
        acts.push(Action { name, params, precond: pre, effect, monitored: monitored || any_trans });
        proof {
            assert(old@ =~= t.actions@.subrange(acts.len() as int, n as int));
        }
    }
    let mut goal_parts: Vec<Formula> = vec![goal];
    let mut prefs = prefs;
    let ghost pf = prefs@;
    let ghost g0 = goal_parts@;
    goal_parts.append(&mut prefs);
    proof {
        lemma_fviews_index(pf);
        assert(fviews(pf) =~= pref_views(hard@, soft@));
        assert(g0 =~= seq![t.goal]);
        crate::monitor::lemma_fviews1(t.goal);
        assert(goal_parts@ =~= g0 + pf);
        crate::monitor::lemma_fviews_cat(g0, pf);
        assert(fviews(goal_parts@) =~= seq![fview(t.goal)] + pref_views(hard@, soft@));
    }
    if h > 0 {
        predicates.push(String::from_str("TRAJ-PLANNING"));
        predicates.push(String::from_str("TRAJ-ENDED"));
        init.push((String::from_str("TRAJ-PLANNING"), Vec::new()));
        proof {
            assert(strs(predicates@) =~= strs(pn) + seq![planning(), ended()]);
            assert(strs(init@.last().1@) =~= Seq::<Seq<char>>::empty());
            assert(atom_views(init@) =~= atom_views(inn) + seq![(planning(), Seq::<Seq<char>>::empty())]);
        }
        let mut end_eff: Vec<Effect> = Vec::new();
        end_eff.push(Effect::Del(String::from_str("TRAJ-PLANNING"), Vec::new()));
        end_eff.push(Effect::Add(String::from_str("TRAJ-ENDED"), Vec::new()));
        let mut accs = hard_acc;
        let ghost ha = accs@;
        let ghost pp = predicates@;
        let ghost gp = goal_parts@;
        let mut k: usize = 0;
        while k < h
            invariant
                k <= h,
                h == hard.len(),
                ha.len() == h,
                accs@ == ha.subrange(k as int, h as int),
                forall|q: int| 0 <= q < h ==> fviews((#[trigger] ha[q])@) == ms[q].2,
                end_eff.len() == k + 2,
                dels0(end_eff@[0], planning()),
                adds0(end_eff@[1], ended()),
                forall|q: int| 0 <= q < k ==> latch(#[trigger] end_eff@[q + 2], ms[q].2, mfact(q as nat, "-ACC"@)),
                strs(predicates@) == strs(pp) + Seq::new(k as nat, |q: int| mfact(q as nat, "-ACC"@)),
                fviews(goal_parts@) == fviews(gp) + Seq::new(k as nat, |q: int| fact0(mfact(q as nat, "-ACC"@))),
            decreases h - k,
        {
            let mut acc = accs.remove(0);
            assert(acc == ha[k as int]);
            let accf = numbered("TRAJ", k, "-ACC");
            let ghost pr = predicates@;
            let ghost gr = goal_parts@;
            predicates.push(accf.clone());
            goal_parts.push(fact_atom(&accf));
            proof {
                lemma_fviews_len(acc@);
                assert(strs(predicates@) =~= strs(pr).push(accf@));
                crate::monitor::lemma_fviews_push(gr, goal_parts@.last());
                assert(goal_parts@ =~= gr.push(goal_parts@.last()));
            }
            let ghost av = fviews(acc@);
            let cond = if acc.len() == 1 {
                let ghost before = acc@;
                let x = acc.pop().unwrap();
                proof {
                    crate::monitor::lemma_fviews1(x);
                    assert(before =~= seq![x]);
                }
                x
            } else {
                Formula::And(acc)
            };
            assert(fview(cond) == conj1(av));
            end_eff.push(Effect::When(cond, Box::new(Effect::Add(accf, Vec::new()))));
            proof {
                assert(accs@ =~= ha.subrange(k + 1, h as int));
                assert(Seq::new((k + 1) as nat, |q: int| mfact(q as nat, "-ACC"@)) =~= Seq::new(k as nat, |q: int| mfact(q as nat, "-ACC"@)).push(accf@));
                assert(Seq::new((k + 1) as nat, |q: int| fact0(mfact(q as nat, "-ACC"@))) =~= Seq::new(k as nat, |q: int| fact0(mfact(q as nat, "-ACC"@))).push(fact0(accf@)));
                assert(latch(end_eff@[k + 2], ms[k as int].2, mfact(k as nat, "-ACC"@)));
            }
            k = k + 1;
        }
        let ended_atom = fact_atom(&String::from_str("TRAJ-ENDED"));
        let ghost gr = goal_parts@;
        goal_parts.push(ended_atom);
        proof {
            crate::monitor::lemma_fviews_push(gr, ended_atom);
        }
        let end = Action {
            name: String::from_str(END_ACTION),
            params: Vec::new(),
            precond: fact_atom(&planning_name),
            effect: Effect::And(end_eff),
            monitored: false,
        };
        proof {
            assert(end_effects_ok(end_eff@, ms.take(h as int)));
            assert(strs(predicates@) =~= strs(pn) + (seq![planning(), ended()] + Seq::new(h as nat, |q: int| mfact(q as nat, "-ACC"@))));
            assert(fviews(goal_parts@) =~= fviews(gp) + end_goal(h as nat));
        }
        acts.push(end);
    }
    let out = PlanTask { predicates, functions, preferences, actions: acts, init, goal: Formula::And(goal_parts), monitors };
    proof {
        assert(fv.map_values(|d: (Seq<char>, bool)| d.0) == cat_facts(ms).map_values(|d: (Seq<char>, bool)| d.0));
        if h == 0 {
            assert(strs(out.predicates@) =~= strs(t.predicates@) + cat_facts(ms).map_values(|d: (Seq<char>, bool)| d.0) + Seq::<Seq<char>>::empty());
            assert(atom_views(out.init@) =~= atom_views(t.init@) + init_adds(cat_facts(ms)) + Seq::<AtomView>::empty());
            assert(fviews(goal_parts@) =~= seq![fview(t.goal)] + pref_views(hard@, soft@) + Seq::<FormulaView>::empty());
        } else {
            assert(strs(out.predicates@) =~= strs(t.predicates@) + cat_facts(ms).map_values(|d: (Seq<char>, bool)| d.0) + (seq![planning(), ended()] + Seq::new(h as nat, |q: int| mfact(q as nat, "-ACC"@))));
            assert(atom_views(out.init@) =~= atom_views(t.init@) + init_adds(cat_facts(ms)) + seq![(planning(), Seq::<Seq<char>>::empty())]);
        }
    }
    Ok(out)
}
} // verus!
