//! Relaxed reachability over ground operators, and the goal analysis that
//! follows it: which facts any sequence of operators could make true when
//! deletes are ignored, which operators could ever fire, and whether the
//! goal is settled before search (every goal fact true from the start and
//! never deleted) or refuted (a goal fact nothing can reach).

use vstd::prelude::*;

verus! {

/// What reachability and the fact compaction read of a ground operator:
/// its positive preconditions, the facts it adds (plainly or under a
/// condition), the facts it deletes (plainly or under a condition), the
/// facts its conditional effects test, and whether it carries the shared
/// monitor block.
pub struct ReachOp {
    pub pre: Vec<usize>,
    pub add: Vec<usize>,
    pub cond_add: Vec<usize>,
    pub del: Vec<usize>,
    pub cond_pre: Vec<usize>,
    pub monitored: bool,
}

/// Whether every precondition of `op` is in the fact set `s`.
pub open spec fn enabled(op: ReachOp, s: Seq<bool>) -> bool {
    forall|k: int| 0 <= k < op.pre.len() ==> s[#[trigger] op.pre@[k] as int]
}

/// Whether the fact set `s` holds every fact in `fs`.
pub open spec fn holds_all(fs: Seq<usize>, s: Seq<bool>) -> bool {
    forall|k: int| 0 <= k < fs.len() ==> s[#[trigger] fs[k] as int]
}

/// Whether `s` is closed under the relaxed rules: it holds the initial
/// facts; an operator it enables adds all its facts, conditional ones
/// included; and once it enables a monitored operator it holds the shared
/// block's adds.
pub open spec fn closed(s: Seq<bool>, init: Seq<bool>, ops: Seq<ReachOp>, shared_add: Seq<usize>) -> bool {
    &&& s.len() == init.len()
    &&& forall|f: int| 0 <= f < init.len() && #[trigger] init[f] ==> s[f]
    &&& forall|i: int|
        0 <= i < ops.len() && enabled(#[trigger] ops[i], s) ==> holds_all(ops[i].add@, s) && holds_all(
            ops[i].cond_add@,
            s,
        )
    &&& (exists|i: int| 0 <= i < ops.len() && (#[trigger] ops[i]).monitored && enabled(ops[i], s))
        ==> holds_all(shared_add, s)
}

/// Whether every fact of `r` is in `s`.
pub open spec fn within(r: Seq<bool>, s: Seq<bool>) -> bool {
    forall|f: int| 0 <= f < r.len() && #[trigger] r[f] ==> s[f]
}

/// Whether every fact id that the operators and the shared block name is
/// below `n`.
pub open spec fn ids_below(ops: Seq<ReachOp>, shared: Seq<usize>, n: nat) -> bool {
    &&& forall|i: int, k: int| 0 <= i < ops.len() && 0 <= k < ops[i].pre.len() ==> (#[trigger] ops[i].pre@[k]) < n
    &&& forall|i: int, k: int| 0 <= i < ops.len() && 0 <= k < ops[i].add.len() ==> (#[trigger] ops[i].add@[k]) < n
    &&& forall|i: int, k: int|
        0 <= i < ops.len() && 0 <= k < ops[i].cond_add.len() ==> (#[trigger] ops[i].cond_add@[k]) < n
    &&& forall|i: int, k: int| 0 <= i < ops.len() && 0 <= k < ops[i].del.len() ==> (#[trigger] ops[i].del@[k]) < n
    &&& forall|i: int, k: int|
        0 <= i < ops.len() && 0 <= k < ops[i].cond_pre.len() ==> (#[trigger] ops[i].cond_pre@[k]) < n
    &&& forall|k: int| 0 <= k < shared.len() ==> #[trigger] shared[k] < n
}

pub open spec fn count_true(s: Seq<bool>) -> nat
    decreases s.len(),
{
    if s.len() == 0 {
        0
    } else {
        count_true(s.drop_last()) + if s.last() {
            1nat
        } else {
            0nat
        }
    }
}

proof fn lemma_count_true(s: Seq<bool>, i: int)
    requires
        0 <= i < s.len(),
        !s[i],
    ensures
        count_true(s.update(i, true)) == count_true(s) + 1,
        count_true(s) <= s.len(),
    decreases s.len(),
{
    let t = s.update(i, true);
    if i == s.len() - 1 {
        assert(t.drop_last() =~= s.drop_last());
        lemma_count_le(s.drop_last());
    } else {
        assert(t.drop_last() =~= s.drop_last().update(i, true));
        lemma_count_true(s.drop_last(), i);
    }
}

proof fn lemma_count_le(s: Seq<bool>)
    ensures
        count_true(s) <= s.len(),
    decreases s.len(),
{
    if s.len() > 0 {
        lemma_count_le(s.drop_last());
    }
}

/// Set every fact of `fs` in `reached`.
fn mark_all(fs: &Vec<usize>, reached: &mut Vec<bool>)
    requires
        forall|k: int| 0 <= k < fs.len() ==> #[trigger] fs@[k] < old(reached).len(),
    ensures
        final(reached).len() == old(reached).len(),
        holds_all(fs@, final(reached)@),
        forall|f: int| 0 <= f < old(reached).len() && old(reached)@[f] ==> final(reached)@[f],
        forall|f: int|
            0 <= f < old(reached).len() && final(reached)@[f] ==> old(reached)@[f] || exists|k: int|
                0 <= k < fs.len() && fs@[k] == f,
{
    let mut k: usize = 0;
    while k < fs.len()
        invariant
            k <= fs.len(),
            reached.len() == old(reached).len(),
            forall|j: int| 0 <= j < fs.len() ==> #[trigger] fs@[j] < old(reached).len(),
            forall|j: int| 0 <= j < k ==> reached@[#[trigger] fs@[j] as int],
            forall|f: int| 0 <= f < old(reached).len() && old(reached)@[f] ==> reached@[f],
            forall|f: int|
                0 <= f < old(reached).len() && reached@[f] ==> old(reached)@[f] || exists|j: int|
                    0 <= j < fs.len() && fs@[j] == f,
        decreases fs.len() - k,
    {
        let f = fs[k];
        reached.set(f, true);
        k = k + 1;
    }
}

/// Whether every fact of `fs` is in `reached`.
fn all_reached(fs: &Vec<usize>, reached: &Vec<bool>) -> (b: bool)
    requires
        forall|k: int| 0 <= k < fs.len() ==> #[trigger] fs@[k] < reached.len(),
    ensures
        b == holds_all(fs@, reached@),
{
    let mut k: usize = 0;
    while k < fs.len()
        invariant
            k <= fs.len(),
            forall|j: int| 0 <= j < fs.len() ==> #[trigger] fs@[j] < reached.len(),
            forall|j: int| 0 <= j < k ==> reached@[#[trigger] fs@[j] as int],
        decreases fs.len() - k,
    {
        if !reached[fs[k]] {
            return false;
        }
        k = k + 1;
    }
    true
}

/// Relaxed reachability: the facts reachable from `init` when deletes are
/// ignored, and the operators that can ever fire. The facts are the least
/// set closed under the relaxed rules (see [`closed`]); an operator is live
/// exactly when that set enables it. Conditional adds count as reachable,
/// as if their conditions could hold; the shared monitor block's adds
/// become reachable with the first live monitored operator.
pub fn relaxed_reach(init: &Vec<bool>, ops: &Vec<ReachOp>, shared_add: &Vec<usize>) -> (r: (
    Vec<bool>,
    Vec<bool>,
))
    requires
        ids_below(ops@, shared_add@, init.len() as nat),
    ensures
        r.0.len() == init.len(),
        r.1.len() == ops.len(),
        closed(r.0@, init@, ops@, shared_add@),
        forall|s: Seq<bool>| #[trigger] closed(s, init@, ops@, shared_add@) ==> within(r.0@, s),
        forall|i: int| 0 <= i < ops.len() ==> r.1@[i] == enabled(#[trigger] ops@[i], r.0@),
{
    let n = init.len();
    let mut reached: Vec<bool> = Vec::new();
    let mut f: usize = 0;
    while f < n
        invariant
            f <= n,
            n == init.len(),
            reached@ =~= init@.take(f as int),
        decreases n - f,
    {
        reached.push(init[f]);
        f = f + 1;
    }
    assert(reached@ =~= init@);
    let mut live: Vec<bool> = Vec::new();
    let mut i: usize = 0;
    while i < ops.len()
        invariant
            i <= ops.len(),
            live.len() == i,
            forall|j: int| 0 <= j < i ==> !live@[j],
        decreases ops.len() - i,
    {
        live.push(false);
        i = i + 1;
    }
    proof {
        assert(count_true(live@) == 0) by {
            lemma_count_zero(live@);
        }
        assert forall|s: Seq<bool>| #[trigger] closed(s, init@, ops@, shared_add@) implies within(reached@, s) by {}
    }
    let mut marked = shared_add.len() == 0;
    let mut n_live: usize = 0;
    let mut changed = true;
    while changed
        invariant
            reached.len() == n,
            n == init.len(),
            live.len() == ops.len(),
            ids_below(ops@, shared_add@, n as nat),
            forall|f: int| 0 <= f < n && #[trigger] init@[f] ==> reached@[f],
            forall|s: Seq<bool>| #[trigger] closed(s, init@, ops@, shared_add@) ==> within(reached@, s),
            forall|j: int|
                0 <= j < ops.len() && #[trigger] live@[j] ==> enabled(ops@[j], reached@) && holds_all(
                    ops@[j].add@,
                    reached@,
                ) && holds_all(ops@[j].cond_add@, reached@),
            marked ==> holds_all(shared_add@, reached@),
            (exists|j: int| 0 <= j < ops.len() && #[trigger] live@[j] && ops@[j].monitored) ==> marked,
            n_live == count_true(live@),
            n_live <= ops.len(),
            !changed ==> forall|j: int| 0 <= j < ops.len() ==> #[trigger] live@[j] || !enabled(ops@[j], reached@),
        decreases ops.len() - n_live, if changed { 1int } else { 0int },
    {
        changed = false;
        let ghost n0 = n_live;
        let ghost reached0 = reached@;
        let mut i: usize = 0;
        while i < ops.len()
            invariant
                i <= ops.len(),
                reached.len() == n,
                n == init.len(),
                live.len() == ops.len(),
                ids_below(ops@, shared_add@, n as nat),
                forall|f: int| 0 <= f < n && #[trigger] init@[f] ==> reached@[f],
                forall|s: Seq<bool>| #[trigger] closed(s, init@, ops@, shared_add@) ==> within(reached@, s),
                forall|j: int|
                    0 <= j < ops.len() && #[trigger] live@[j] ==> enabled(ops@[j], reached@) && holds_all(
                        ops@[j].add@,
                        reached@,
                    ) && holds_all(ops@[j].cond_add@, reached@),
                marked ==> holds_all(shared_add@, reached@),
                (exists|j: int| 0 <= j < ops.len() && #[trigger] live@[j] && ops@[j].monitored) ==> marked,
                n_live == count_true(live@),
                n_live <= ops.len(),
                changed ==> n_live > n0,
                !changed ==> n_live == n0 && reached@ == reached0,
                !changed ==> forall|j: int| 0 <= j < i ==> #[trigger] live@[j] || !enabled(ops@[j], reached@),
            decreases ops.len() - i,
        {
            let op = &ops[i];
            proof {
                assert forall|k: int| 0 <= k < op.pre.len() implies #[trigger] op.pre@[k] < reached.len() by {
                    assert(ops@[i as int].pre@[k] < n);
                }
            }
            if !live[i] && all_reached(&op.pre, &reached) {
                let ghost before = reached@;
                let ghost live_before = live@;
                proof {
                    lemma_count_true(live@, i as int);
                    lemma_count_le(live@.update(i as int, true));
                }
                live.set(i, true);
                n_live = n_live + 1;
                changed = true;
                proof {
                    assert forall|k: int| 0 <= k < op.add.len() implies #[trigger] op.add@[k] < reached.len() by {
                        assert(ops@[i as int].add@[k] < n);
                    }
                    assert forall|k: int| 0 <= k < op.cond_add.len() implies #[trigger] op.cond_add@[k] < reached.len() by {
                        assert(ops@[i as int].cond_add@[k] < n);
                    }
                }
                mark_all(&op.add, &mut reached);
                let ghost mid = reached@;
                mark_all(&op.cond_add, &mut reached);
                let ghost mid2 = reached@;
                if op.monitored && !marked {
                    marked = true;
                    mark_all(shared_add, &mut reached);
                }
                proof {
                    // Growth keeps every earlier fact.
                    assert forall|f: int| 0 <= f < n && before[f] implies reached@[f] by {
                        assert(mid[f]);
                        assert(mid2[f]);
                    }
                    assert(holds_all(op.add@, reached@)) by {
                        assert forall|k: int| 0 <= k < op.add.len() implies reached@[#[trigger] op.add@[k] as int] by {
                            assert(mid[op.add@[k] as int]);
                            assert(mid2[op.add@[k] as int]);
                        }
                    }
                    assert(holds_all(op.cond_add@, reached@)) by {
                        assert forall|k: int| 0 <= k < op.cond_add.len() implies reached@[#[trigger] op.cond_add@[k] as int] by {
                            assert(mid2[op.cond_add@[k] as int]);
                        }
                    }
                    assert(enabled(ops@[i as int], reached@)) by {
                        assert forall|k: int| 0 <= k < op.pre.len() implies reached@[#[trigger] op.pre@[k] as int] by {
                            assert(before[op.pre@[k] as int]);
                        }
                    }
                    assert forall|j: int|
                        0 <= j < ops.len() && #[trigger] live@[j] implies enabled(ops@[j], reached@) && holds_all(
                            ops@[j].add@,
                            reached@,
                        ) && holds_all(ops@[j].cond_add@, reached@) by {
                        if j != i {
                            assert(live_before[j]);
                            assert forall|k: int| 0 <= k < ops@[j].pre.len() implies reached@[#[trigger] ops@[j].pre@[k] as int] by {
                                assert(before[ops@[j].pre@[k] as int]);
                            }
                            assert forall|k: int| 0 <= k < ops@[j].add.len() implies reached@[#[trigger] ops@[j].add@[k] as int] by {
                                assert(before[ops@[j].add@[k] as int]);
                            }
                            assert forall|k: int| 0 <= k < ops@[j].cond_add.len() implies reached@[#[trigger] ops@[j].cond_add@[k] as int] by {
                                assert(before[ops@[j].cond_add@[k] as int]);
                            }
                        }
                    }
                    if marked {
                        assert forall|k: int| 0 <= k < shared_add.len() implies reached@[#[trigger] shared_add@[k] as int] by {
                            if op.monitored && !(shared_add.len() == 0) {
                            }
                            assert(shared_add@[k] < n);
                        }
                    }
                    assert forall|s: Seq<bool>| #[trigger] closed(s, init@, ops@, shared_add@) implies within(reached@, s) by {
                        assert(within(before, s));
                        assert(enabled(ops@[i as int], s)) by {
                            assert forall|k: int| 0 <= k < op.pre.len() implies s[#[trigger] op.pre@[k] as int] by {
                                assert(before[op.pre@[k] as int]);
                                assert(op.pre@[k] < n);
                            }
                        }
                        assert(holds_all(op.add@, s));
                        assert(holds_all(op.cond_add@, s));
                        if op.monitored {
                            assert(holds_all(shared_add@, s));
                        }
                        assert forall|f: int| 0 <= f < reached.len() && #[trigger] reached@[f] implies s[f] by {
                            if !before[f] {
                                if mid[f] {
                                    let k = choose|k: int| 0 <= k < op.add.len() && op.add@[k] == f;
                                    assert(s[op.add@[k] as int]);
                                } else if mid2[f] {
                                    let k = choose|k: int| 0 <= k < op.cond_add.len() && op.cond_add@[k] == f;
                                    assert(s[op.cond_add@[k] as int]);
                                } else {
                                    let k = choose|k: int| 0 <= k < shared_add.len() && shared_add@[k] == f;
                                    assert(s[shared_add@[k] as int]);
                                }
                            }
                        }
                    }
                }
            }
            i = i + 1;
        }
    }
    proof {
        assert forall|i: int| 0 <= i < ops.len() implies live@[i] == enabled(#[trigger] ops@[i], reached@) by {}
        assert forall|i: int| 0 <= i < ops.len() && enabled(#[trigger] ops@[i], reached@) implies holds_all(
            ops@[i].add@,
            reached@,
        ) && holds_all(ops@[i].cond_add@, reached@) by {
            assert(live@[i]);
        }
        if exists|i: int| 0 <= i < ops.len() && (#[trigger] ops@[i]).monitored && enabled(ops@[i], reached@) {
            let i = choose|i: int| 0 <= i < ops.len() && (#[trigger] ops@[i]).monitored && enabled(ops@[i], reached@);
            assert(live@[i]);
        }
    }
    (reached, live)
}

proof fn lemma_count_zero(s: Seq<bool>)
    requires
        forall|j: int| 0 <= j < s.len() ==> !s[j],
    ensures
        count_true(s) == 0,
    decreases s.len(),
{
    if s.len() > 0 {
        lemma_count_zero(s.drop_last());
    }
}

/// Whether some live operator deletes `f` (plainly or under a condition),
/// or the shared monitor block does while some monitored operator is live.
pub open spec fn deletable(
    f: usize,
    ops: Seq<ReachOp>,
    live: Seq<bool>,
    shared_del: Seq<usize>,
) -> bool {
    ||| exists|i: int| 0 <= i < ops.len() && live[i] && (#[trigger] ops[i]).del@.contains(f)
    ||| (exists|i: int| 0 <= i < ops.len() && live[i] && (#[trigger] ops[i]).monitored) && shared_del.contains(f)
}

/// A goal fact settled by inertia: true from the start and never deleted.
pub open spec fn inert(
    f: usize,
    init: Seq<bool>,
    ops: Seq<ReachOp>,
    live: Seq<bool>,
    shared_del: Seq<usize>,
) -> bool {
    init[f as int] && !deletable(f, ops, live, shared_del)
}

pub open spec fn unsettled(
    init: Seq<bool>,
    ops: Seq<ReachOp>,
    live: Seq<bool>,
    shared_del: Seq<usize>,
) -> spec_fn(usize) -> bool {
    |f: usize| !inert(f, init, ops, live, shared_del)
}

/// The place of the first fact of `fs` outside `reached`, or -1.
pub open spec fn first_unreached(fs: Seq<usize>, reached: Seq<bool>) -> int
    decreases fs.len(),
{
    if fs.len() == 0 {
        -1
    } else if !reached[fs[0] as int] {
        0
    } else {
        let k = first_unreached(fs.drop_first(), reached);
        if k < 0 {
            -1
        } else {
            k + 1
        }
    }
}

/// What the goal analysis concludes before search.
#[derive(Clone, Debug, PartialEq, Eq)]
pub enum GoalVerdict {
    /// Every goal fact is settled by inertia and no numeric goal is open:
    /// the goal holds from the start.
    Met,
    /// A goal fact that no live operator can reach.
    Unreachable(usize),
    /// The goal facts left for search, in goal order.
    Open(Vec<usize>),
}

/// The goal analysis after relaxed reachability. A goal fact true from the
/// start and deleted by no live operator is settled; when every goal fact
/// is and `numeric_open` says no numeric goal is left, the goal is met. A
/// goal fact left that relaxed reachability did not reach refutes the goal
/// (the first such, in goal order). In `validate` mode neither verdict is
/// drawn and the facts left are handed on.
pub fn goal_verdict(
    init: &Vec<bool>,
    reached: &Vec<bool>,
    ops: &Vec<ReachOp>,
    live: &Vec<bool>,
    shared_del: &Vec<usize>,
    goal: &Vec<usize>,
    numeric_open: bool,
    validate: bool,
) -> (r: GoalVerdict)
    requires
        reached.len() == init.len(),
        live.len() == ops.len(),
        ids_below(ops@, shared_del@, init.len() as nat),
        forall|k: int| 0 <= k < goal.len() ==> #[trigger] goal@[k] < init.len(),
    ensures
        ({
            let left = goal@.filter(unsettled(init@, ops@, live@, shared_del@));
            &&& !validate && left.len() == 0 && !numeric_open ==> r == GoalVerdict::Met
            &&& !validate && !(left.len() == 0 && !numeric_open) && first_unreached(left, reached@) >= 0
                ==> r == GoalVerdict::Unreachable(left[first_unreached(left, reached@)])
            &&& (validate || (!(left.len() == 0 && !numeric_open) && first_unreached(left, reached@) < 0))
                ==> (r matches GoalVerdict::Open(v) && v@ == left)
        }),
{
    let n = init.len();
    let ghost unset = unsettled(init@, ops@, live@, shared_del@);
    // Which facts some live operator, or the live shared block, deletes.
    let mut any_monitored = false;
    let mut i: usize = 0;
    while i < ops.len()
        invariant
            i <= ops.len(),
            live.len() == ops.len(),
            any_monitored == exists|j: int| 0 <= j < i && live@[j] && (#[trigger] ops@[j]).monitored,
        decreases ops.len() - i,
    {
        if live[i] && ops[i].monitored {
            any_monitored = true;
        }
        i = i + 1;
    }
    let mut gone: Vec<bool> = Vec::new();
    let mut f: usize = 0;
    while f < n
        invariant
            f <= n,
            gone.len() == f,
            forall|g: int| 0 <= g < f ==> !gone@[g],
        decreases n - f,
    {
        gone.push(false);
        f = f + 1;
    }
    let mut i: usize = 0;
    while i < ops.len()
        invariant
            i <= ops.len(),
            gone.len() == n,
            n == init.len(),
            live.len() == ops.len(),
            ids_below(ops@, shared_del@, n as nat),
            forall|g: int|
                0 <= g < n ==> (#[trigger] gone@[g] <==> exists|j: int|
                    0 <= j < i && live@[j] && (#[trigger] ops@[j]).del@.contains(g as usize)),
        decreases ops.len() - i,
    {
        if live[i] {
            let dels = &ops[i].del;
            let ghost before = gone@;
            let mut k: usize = 0;
            while k < dels.len()
                invariant
                    k <= dels.len(),
                    gone.len() == n,
                    *dels == ops@[i as int].del,
                    forall|m: int| 0 <= m < dels.len() ==> #[trigger] dels@[m] < n,
                    forall|g: int|
                        0 <= g < n ==> (#[trigger] gone@[g] <==> (before[g] || exists|m: int|
                            0 <= m < k && dels@[m] == g)),
                decreases dels.len() - k,
            {
                gone.set(dels[k], true);
                k = k + 1;
            }
            proof {
                assert forall|g: int| 0 <= g < n implies (#[trigger] gone@[g] <==> exists|j: int|
                    0 <= j < i + 1 && live@[j] && (#[trigger] ops@[j]).del@.contains(g as usize)) by {
                    if gone@[g] && !before[g] {
                        let m = choose|m: int| 0 <= m < k && dels@[m] == g;
                        assert(ops@[i as int].del@.contains(g as usize));
                    }
                    if exists|j: int| 0 <= j < i + 1 && live@[j] && (#[trigger] ops@[j]).del@.contains(g as usize) {
                        let j = choose|j: int| 0 <= j < i + 1 && live@[j] && (#[trigger] ops@[j]).del@.contains(g as usize);
                        if j == i {
                            let m = choose|m: int| 0 <= m < dels.len() && dels@[m] == g as usize;
                        }
                    }
                }
            }
        }
        i = i + 1;
    }
    if any_monitored {
        let ghost before = gone@;
        let mut k: usize = 0;
        while k < shared_del.len()
            invariant
                k <= shared_del.len(),
                gone.len() == n,
                forall|m: int| 0 <= m < shared_del.len() ==> #[trigger] shared_del@[m] < n,
                forall|g: int|
                    0 <= g < n ==> (#[trigger] gone@[g] <==> (before[g] || exists|m: int|
                        0 <= m < k && shared_del@[m] == g)),
            decreases shared_del.len() - k,
        {
            gone.set(shared_del[k], true);
            k = k + 1;
        }
    }
    proof {
        assert forall|g: int| 0 <= g < n implies (#[trigger] gone@[g] <==> deletable(g as usize, ops@, live@, shared_del@)) by {
            if any_monitored {
                if gone@[g] && !(exists|j: int| 0 <= j < ops.len() && live@[j] && (#[trigger] ops@[j]).del@.contains(g as usize)) {
                    let m = choose|m: int| 0 <= m < shared_del.len() && shared_del@[m] == g;
                    assert(shared_del@.contains(g as usize));
                }
                if shared_del@.contains(g as usize) {
                    let m = choose|m: int| 0 <= m < shared_del.len() && shared_del@[m] == g as usize;
                }
            }
        }
    }
    // The goal facts inertia does not settle, in goal order.
    let mut left: Vec<usize> = Vec::new();
    let mut k: usize = 0;
    while k < goal.len()
        invariant
            k <= goal.len(),
            gone.len() == n,
            n == init.len(),
            unset == unsettled(init@, ops@, live@, shared_del@),
            forall|m: int| 0 <= m < goal.len() ==> #[trigger] goal@[m] < n,
            forall|g: int| 0 <= g < n ==> (#[trigger] gone@[g] <==> deletable(g as usize, ops@, live@, shared_del@)),
            left@ == goal@.take(k as int).filter(unset),
            forall|m: int| 0 <= m < left.len() ==> #[trigger] left@[m] < n,
        decreases goal.len() - k,
    {
        let g = goal[k];
        proof {
            reveal(Seq::filter);
            assert(goal@.take(k + 1).drop_last() =~= goal@.take(k as int));
            assert(goal@.take(k + 1).last() == g);
        }
        if !(init[g] && !gone[g]) {
            left.push(g);
        }
        k = k + 1;
    }
    assert(goal@.take(goal.len() as int) =~= goal@);
    assert(left@ == goal@.filter(unset));
    if left.len() == 0 && !numeric_open && !validate {
        return GoalVerdict::Met;
    }
    if !validate {
        let mut k: usize = 0;
        assert(left@.skip(0) =~= left@);
        while k < left.len()
            invariant
                k <= left.len(),
                reached.len() == n,
                forall|m: int| 0 <= m < left.len() ==> #[trigger] left@[m] < n,
                first_unreached(left@.skip(k as int), reached@) >= 0 ==> first_unreached(left@, reached@)
                    == k + first_unreached(left@.skip(k as int), reached@),
                first_unreached(left@.skip(k as int), reached@) < 0 ==> first_unreached(left@, reached@) < 0,
                left@ == goal@.filter(unset),
                unset == unsettled(init@, ops@, live@, shared_del@),
                !(left.len() == 0 && !numeric_open),
                !validate,
            decreases left.len() - k,
        {
            assert(left@.skip(k as int).drop_first() =~= left@.skip(k + 1));
            if !reached[left[k]] {
                assert(left@.skip(k as int)[0] == left@[k as int]);
                assert(first_unreached(left@.skip(k as int), reached@) == 0);
                assert(first_unreached(left@, reached@) == k);
                return GoalVerdict::Unreachable(left[k]);
            }
            k = k + 1;
        }
    }
    GoalVerdict::Open(left)
}

/// One step of a run: `op` is enabled in `s`, and every fact of `t` was in
/// `s` or is one `op` adds (plainly, under a condition, or through the
/// shared monitor block when `op` is monitored). Deletes only take facts
/// away, so any state the operator's effects can produce is such a `t`.
pub open spec fn step_ok(s: Seq<bool>, op: ReachOp, t: Seq<bool>, shared_add: Seq<usize>) -> bool {
    &&& enabled(op, s)
    &&& t.len() == s.len()
    &&& forall|f: int|
        0 <= f < t.len() && #[trigger] t[f] ==> s[f] || op.add@.contains(f as usize)
            || op.cond_add@.contains(f as usize) || (op.monitored && shared_add.contains(f as usize))
}

/// A run from `init`: `states[0]` is `init`, and each next state follows
/// from the one before by the operator `steps` names.
pub open spec fn run_ok(
    init: Seq<bool>,
    ops: Seq<ReachOp>,
    shared_add: Seq<usize>,
    states: Seq<Seq<bool>>,
    steps: Seq<int>,
) -> bool {
    &&& states.len() == steps.len() + 1
    &&& states[0] == init
    &&& forall|t: int|
        0 <= t < steps.len() ==> 0 <= #[trigger] steps[t] < ops.len() && step_ok(
            states[t],
            ops[steps[t]],
            states[t + 1],
            shared_add,
        )
}

/// Relaxed reachability over-approximates every run: no run of the
/// operators makes true a fact outside the reached set, or fires an
/// operator it leaves dead. So pruning dead operators loses no plan, and a
/// goal fact outside the reached set is unreachable indeed.
pub proof fn law_runs_stay_within_reach(
    init: Seq<bool>,
    ops: Seq<ReachOp>,
    shared_add: Seq<usize>,
    reached: Seq<bool>,
    live: Seq<bool>,
    states: Seq<Seq<bool>>,
    steps: Seq<int>,
)
    requires
        init.len() <= usize::MAX,
        ids_below(ops, shared_add, init.len()),
        closed(reached, init, ops, shared_add),
        live.len() == ops.len(),
        forall|i: int| 0 <= i < ops.len() ==> live[i] == enabled(#[trigger] ops[i], reached),
        run_ok(init, ops, shared_add, states, steps),
    ensures
        forall|t: int| 0 <= t < states.len() ==> within(#[trigger] states[t], reached),
        forall|t: int| 0 <= t < steps.len() ==> live[#[trigger] steps[t]],
{
    assert forall|t: int| 0 <= t < states.len() implies within(#[trigger] states[t], reached) by {
        lemma_run_prefix_within(init, ops, shared_add, reached, states, steps, t);
    }
    assert forall|t: int| 0 <= t < steps.len() implies live[#[trigger] steps[t]] by {
        lemma_run_prefix_within(init, ops, shared_add, reached, states, steps, t);
        let op = ops[steps[t]];
        assert(step_ok(states[t], op, states[t + 1], shared_add));
        assert forall|k: int| 0 <= k < op.pre.len() implies reached[#[trigger] op.pre@[k] as int] by {
            assert(states[t][op.pre@[k] as int]);
            assert(ops[steps[t]].pre@[k] < init.len());
        }
    }
}

proof fn lemma_run_prefix_within(
    init: Seq<bool>,
    ops: Seq<ReachOp>,
    shared_add: Seq<usize>,
    reached: Seq<bool>,
    states: Seq<Seq<bool>>,
    steps: Seq<int>,
    t: int,
)
    requires
        init.len() <= usize::MAX,
        ids_below(ops, shared_add, init.len()),
        closed(reached, init, ops, shared_add),
        run_ok(init, ops, shared_add, states, steps),
        0 <= t < states.len(),
    ensures
        within(states[t], reached),
        states[t].len() == init.len(),
    decreases t,
{
    if t == 0 {
    } else {
        lemma_run_prefix_within(init, ops, shared_add, reached, states, steps, t - 1);
        let s = states[t - 1];
        let op = ops[steps[t - 1]];
        assert(step_ok(s, op, states[t], shared_add));
        assert(enabled(op, reached)) by {
            assert forall|k: int| 0 <= k < op.pre.len() implies reached[#[trigger] op.pre@[k] as int] by {
                assert(s[op.pre@[k] as int]);
                assert(ops[steps[t - 1]].pre@[k] < init.len());
            }
        }
        assert(holds_all(op.add@, reached));
        assert(holds_all(op.cond_add@, reached));
        if op.monitored {
            assert(holds_all(shared_add, reached));
        }
        assert forall|f: int| 0 <= f < states[t].len() && #[trigger] states[t][f] implies reached[f] by {
            assert(f as usize as int == f);
            if !s[f] {
                if op.add@.contains(f as usize) {
                    let k = choose|k: int| 0 <= k < op.add.len() && op.add@[k] == f as usize;
                    assert(reached[op.add@[k] as int]);
                } else if op.cond_add@.contains(f as usize) {
                    let k = choose|k: int| 0 <= k < op.cond_add.len() && op.cond_add@[k] == f as usize;
                    assert(reached[op.cond_add@[k] as int]);
                } else {
                    let k = choose|k: int| 0 <= k < shared_add.len() && shared_add[k] == f as usize;
                    assert(reached[shared_add[k] as int]);
                }
            }
        }
    }
}

/// Whether a fact stays in the compacted fact space: it is reached, a live
/// operator or the shared monitor block refers to it, or the goal names it.
pub open spec fn kept(
    f: usize,
    reached: Seq<bool>,
    live: Seq<bool>,
    ops: Seq<ReachOp>,
    shared_refs: Seq<usize>,
    goal: Seq<usize>,
) -> bool {
    ||| reached[f as int]
    ||| exists|i: int| 0 <= i < ops.len() && live[i] && refers(#[trigger] ops[i], f)
    ||| shared_refs.contains(f)
    ||| goal.contains(f)
}

/// Whether an operator names the fact anywhere.
pub open spec fn refers(op: ReachOp, f: usize) -> bool {
    op.pre@.contains(f) || op.add@.contains(f) || op.cond_add@.contains(f) || op.del@.contains(f)
        || op.cond_pre@.contains(f)
}

/// The kept facts' new ids: each kept fact's rank among the kept facts,
/// `u32::MAX` for a dropped one.
pub open spec fn renumbered(keep: Seq<bool>, f: int) -> u32 {
    if keep[f] {
        count_true(keep.take(f)) as u32
    } else {
        u32::MAX
    }
}

/// Mark each fact of `fs` (all below `keep.len()`).
fn keep_all(fs: &Vec<usize>, keep: &mut Vec<bool>)
    requires
        forall|k: int| 0 <= k < fs.len() ==> #[trigger] fs@[k] < old(keep).len(),
    ensures
        final(keep).len() == old(keep).len(),
        forall|f: int| 0 <= f < old(keep).len() ==> (#[trigger] final(keep)@[f] <==> (old(keep)@[f] || fs@.contains(f as usize))),
{
    let ghost before = keep@;
    mark_all(fs, keep);
    proof {
        assert forall|f: int| 0 <= f < before.len() implies (#[trigger] keep@[f] <==> (before[f] || fs@.contains(f as usize))) by {
            if fs@.contains(f as usize) {
                let k = choose|k: int| 0 <= k < fs.len() && fs@[k] == f as usize;
                assert(keep@[fs@[k] as int]);
            }
            if keep@[f] && !before[f] {
                let k = choose|k: int| 0 <= k < fs.len() && fs@[k] == f;
                assert(fs@[k] == f as usize);
            }
        }
    }
}

/// Compact the fact space: keep the facts that are reached, that a live
/// operator or the shared monitor block names, or that the goal names, and
/// number the kept facts in their old order. Returns each old fact's new
/// id (`u32::MAX` when dropped) and how many facts are kept.
pub fn compact_facts(
    reached: &Vec<bool>,
    live: &Vec<bool>,
    ops: &Vec<ReachOp>,
    shared_refs: &Vec<usize>,
    goal: &Vec<usize>,
) -> (r: (Vec<u32>, usize))
    requires
        reached.len() < u32::MAX,
        live.len() == ops.len(),
        ids_below(ops@, shared_refs@, reached.len() as nat),
        forall|k: int| 0 <= k < goal.len() ==> #[trigger] goal@[k] < reached.len(),
    ensures
        r.0.len() == reached.len(),
        ({
            let keep = Seq::new(
                reached.len() as nat,
                |f: int| kept(f as usize, reached@, live@, ops@, shared_refs@, goal@),
            );
            &&& forall|f: int| 0 <= f < reached.len() ==> #[trigger] r.0@[f] == renumbered(keep, f)
            &&& r.1 == count_true(keep)
        }),
{
    let n = reached.len();
    let ghost target = Seq::new(n as nat, |f: int| kept(f as usize, reached@, live@, ops@, shared_refs@, goal@));
    let mut keep: Vec<bool> = Vec::new();
    let mut f: usize = 0;
    while f < n
        invariant
            f <= n,
            n == reached.len(),
            keep@ =~= reached@.take(f as int),
        decreases n - f,
    {
        keep.push(reached[f]);
        f = f + 1;
    }
    assert(keep@ =~= reached@);
    let mut i: usize = 0;
    while i < ops.len()
        invariant
            i <= ops.len(),
            keep.len() == n,
            n == reached.len(),
            live.len() == ops.len(),
            ids_below(ops@, shared_refs@, n as nat),
            forall|g: int|
                0 <= g < n ==> (#[trigger] keep@[g] <==> (reached@[g] || exists|j: int|
                    0 <= j < i && live@[j] && refers(#[trigger] ops@[j], g as usize))),
        decreases ops.len() - i,
    {
        if live[i] {
            let op = &ops[i];
            let ghost before = keep@;
            proof {
                assert forall|k: int| 0 <= k < op.pre.len() implies #[trigger] op.pre@[k] < keep.len() by {
                    assert(ops@[i as int].pre@[k] < n);
                }
                assert forall|k: int| 0 <= k < op.add.len() implies #[trigger] op.add@[k] < keep.len() by {
                    assert(ops@[i as int].add@[k] < n);
                }
                assert forall|k: int| 0 <= k < op.cond_add.len() implies #[trigger] op.cond_add@[k] < keep.len() by {
                    assert(ops@[i as int].cond_add@[k] < n);
                }
                assert forall|k: int| 0 <= k < op.del.len() implies #[trigger] op.del@[k] < keep.len() by {
                    assert(ops@[i as int].del@[k] < n);
                }
                assert forall|k: int| 0 <= k < op.cond_pre.len() implies #[trigger] op.cond_pre@[k] < keep.len() by {
                    assert(ops@[i as int].cond_pre@[k] < n);
                }
            }
            keep_all(&op.pre, &mut keep);
            keep_all(&op.add, &mut keep);
            keep_all(&op.cond_add, &mut keep);
            keep_all(&op.del, &mut keep);
            keep_all(&op.cond_pre, &mut keep);
            proof {
                assert forall|g: int| 0 <= g < n implies (#[trigger] keep@[g] <==> (reached@[g] || exists|j: int|
                    0 <= j < i + 1 && live@[j] && refers(#[trigger] ops@[j], g as usize))) by {
                    if keep@[g] && !before[g] {
                        assert(refers(ops@[i as int], g as usize));
                    }
                    if exists|j: int| 0 <= j < i + 1 && live@[j] && refers(#[trigger] ops@[j], g as usize) {
                        let j = choose|j: int| 0 <= j < i + 1 && live@[j] && refers(#[trigger] ops@[j], g as usize);
                        if j < i {
                            assert(before[g]);
                        }
                    }
                }
            }
        }
        i = i + 1;
    }
    let ghost mid = keep@;
    proof {
        assert forall|k: int| 0 <= k < shared_refs.len() implies #[trigger] shared_refs@[k] < keep.len() by {}
    }
    keep_all(shared_refs, &mut keep);
    keep_all(goal, &mut keep);
    proof {
        assert(keep@ =~= target);
    }
    let mut map: Vec<u32> = Vec::new();
    let mut next: u32 = 0;
    let mut f: usize = 0;
    while f < n
        invariant
            f <= n,
            n == reached.len(),
            n < u32::MAX,
            keep@ == target,
            keep.len() == n,
            map.len() == f,
            next as nat == count_true(keep@.take(f as int)),
            forall|g: int| 0 <= g < f ==> #[trigger] map@[g] == renumbered(target, g),
        decreases n - f,
    {
        proof {
            assert(keep@.take(f + 1).drop_last() =~= keep@.take(f as int));
            lemma_count_le(keep@.take(f as int));
        }
        if keep[f] {
            map.push(next);
            next = next + 1;
        } else {
            map.push(u32::MAX);
        }
        f = f + 1;
    }
    assert(keep@.take(n as int) =~= keep@);
    (map, next as usize)
}

proof fn lemma_count_take_mono(s: Seq<bool>, a: int, b: int)
    requires
        0 <= a <= b <= s.len(),
    ensures
        count_true(s.take(a)) <= count_true(s.take(b)),
        a < b && s[a] ==> count_true(s.take(a)) < count_true(s.take(b)),
    decreases b - a,
{
    if a < b {
        lemma_count_take_mono(s, a, b - 1);
        assert(s.take(b).drop_last() =~= s.take(b - 1));
        if a == b - 1 {
            assert(s.take(b).last() == s[a]);
        }
    }
}

/// The compaction keeps the old order: of two kept facts, the earlier gets
/// the smaller new id, and every kept fact's new id is below the number
/// kept.
pub proof fn law_compaction_keeps_the_order(keep: Seq<bool>, f: int, g: int)
    requires
        keep.len() < u32::MAX,
        0 <= f < keep.len(),
        0 <= g < keep.len(),
        keep[f],
        keep[g],
    ensures
        renumbered(keep, f) < count_true(keep),
        f < g ==> renumbered(keep, f) < renumbered(keep, g),
{
    assert(keep.take(keep.len() as int) =~= keep);
    lemma_count_take_mono(keep, f, keep.len() as int);
    lemma_count_take_mono(keep, g, keep.len() as int);
    lemma_count_le(keep);
    if f < g {
        lemma_count_take_mono(keep, f, g);
    }
}

} // verus!
