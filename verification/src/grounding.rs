//! Grounding of a lifted task, up to relaxed reachability: every action's
//! operators over its surviving bindings, the fact table they and the
//! initial state name, the initial state over it, and which facts and
//! operators relaxed reachability keeps.

use vstd::prelude::*;
use crate::action::{
    ground_action, lits_view, ops_over, raw_views, static_top_atoms, top_statics, Action, RawOp,
    RawView,
};
use crate::binding::{
    atom_views, cost, reordered_cost_exceeds, restricted, restricted_domains, strs, surviving, AtomView,
};
use crate::dnf::{copy_strs, statics_view, Formula, Statics, StaticsView};
use crate::effect::Effect;
use crate::intern::{absorb, all_refs, intern_atoms, intern_ops, interned_as, lemma_named_stable, named, ids_in};
use crate::reach::{closed, enabled, ids_below, relaxed_reach, within, ReachOp};
use crate::types::{Sym, Term};

verus! {

/// The predicates an effect adds (`add`) or deletes (otherwise), in the
/// order the tree names them, through `and`, `when` and `forall`.
pub open spec fn eff_preds(e: Effect, add: bool) -> Seq<Seq<char>>
    decreases e, 0int,
{
    match e {
        Effect::Add(p, _) => if add {
            seq![p@]
        } else {
            seq![]
        },
        Effect::Del(p, _) => if add {
            seq![]
        } else {
            seq![p@]
        },
        Effect::And(es) => eff_preds_all(es@, add),
        Effect::When(_, inner) => eff_preds(*inner, add),
        Effect::Forall(_, inner) => eff_preds(*inner, add),
        Effect::Num(_, _, _, _) => seq![],
    }
}

pub open spec fn eff_preds_all(es: Seq<Effect>, add: bool) -> Seq<Seq<char>>
    decreases es, 1int,
{
    if es.len() == 0 {
        seq![]
    } else {
        eff_preds_all(es.drop_last(), add) + eff_preds(es.last(), add)
    }
}

/// The predicates the actions add (or delete), action by action.
pub open spec fn action_preds(acts: Seq<Action>, add: bool) -> Seq<Seq<char>>
    decreases acts.len(),
{
    if acts.len() == 0 {
        seq![]
    } else {
        action_preds(acts.drop_last(), add) + eff_preds(acts.last().effect, add)
    }
}

fn collect_preds(e: &Effect, add: bool, out: &mut Vec<Sym>)
    ensures
        strs(final(out)@) == strs(old(out)@) + eff_preds(*e, add),
    decreases *e, 0int,
{
    match e {
        Effect::Add(p, _) => {
            if add {
                let ghost o = strs(out@);
                out.push(p.clone());
                assert(strs(out@) =~= o + seq![p@]);
            } else {
                assert(strs(out@) =~= strs(out@) + Seq::<Seq<char>>::empty());
            }
        },
        Effect::Del(p, _) => {
            if !add {
                let ghost o = strs(out@);
                out.push(p.clone());
                assert(strs(out@) =~= o + seq![p@]);
            } else {
                assert(strs(out@) =~= strs(out@) + Seq::<Seq<char>>::empty());
            }
        },
        Effect::And(es) => {
            proof {
                assert(decreases_to!(*e => (*e)->And_0));
                assert(decreases_to!((*e)->And_0 => (*e)->And_0@));
            }
            collect_preds_all(es, add, out);
        },
        Effect::When(_, inner) => {
            proof {
                assert(decreases_to!(*e => (*e)->When_1));
            }
            collect_preds(inner, add, out);
        },
        Effect::Forall(_, inner) => {
            proof {
                assert(decreases_to!(*e => (*e)->Forall_1));
            }
            collect_preds(inner, add, out);
        },
        Effect::Num(_, _, _, _) => {
            assert(strs(out@) =~= strs(out@) + Seq::<Seq<char>>::empty());
        },
    }
}

fn collect_preds_all(es: &Vec<Effect>, add: bool, out: &mut Vec<Sym>)
    ensures
        strs(final(out)@) == strs(old(out)@) + eff_preds_all(es@, add),
    decreases es@, 1int,
{
    let ghost o = strs(out@);
    let mut i: usize = 0;
    assert(es@.take(0) =~= Seq::<Effect>::empty());
    assert(o + Seq::<Seq<char>>::empty() =~= o);
    while i < es.len()
        invariant
            i <= es.len(),
            strs(out@) == o + eff_preds_all(es@.take(i as int), add),
        decreases es.len() - i,
    {
        proof {
            assert(decreases_to!(es@ => es@[i as int]));
            let pre = es@.take(i + 1);
            assert(pre.drop_last() =~= es@.take(i as int));
            assert(pre.last() == es@[i as int]);
        }
        collect_preds(&es[i], add, out);
        proof {
            let x = eff_preds_all(es@.take(i as int), add);
            let y = eff_preds(es@[i as int], add);
            assert(o + x + y =~= o + (x + y));
        }
        i = i + 1;
    }
    assert(es@.take(i as int) =~= es@);
}

/// The predicates the actions add (or delete) (see [`action_preds`]).
pub fn predicates_of(acts: &Vec<Action>, add: bool) -> (r: Vec<Sym>)
    ensures
        strs(r@) == action_preds(acts@, add),
{
    let mut r: Vec<Sym> = Vec::new();
    let mut i: usize = 0;
    assert(acts@.take(0) =~= Seq::<Action>::empty());
    assert(strs(r@) =~= Seq::<Seq<char>>::empty());
    while i < acts.len()
        invariant
            i <= acts.len(),
            strs(r@) == action_preds(acts@.take(i as int), add),
        decreases acts.len() - i,
    {
        proof {
            let pre = acts@.take(i + 1);
            assert(pre.drop_last() =~= acts@.take(i as int));
            assert(pre.last() == acts@[i as int]);
        }
        collect_preds(&acts[i].effect, add, &mut r);
        i = i + 1;
    }
    assert(acts@.take(i as int) =~= acts@);
    r
}

/// A lifted task as grounding reads it: the objects of each type, the
/// actions, the initial atoms and the goal atoms.
pub struct LiftedTask {
    pub objs: Vec<(Sym, Vec<Sym>)>,
    pub actions: Vec<Action>,
    pub init: Vec<(Sym, Vec<Sym>)>,
    pub goal: Vec<(Sym, Vec<Sym>)>,
}

/// A task grounded up to relaxed reachability.
pub struct Grounded {
    /// Each action's static precondition literals.
    pub lits: Vec<Vec<(Sym, Vec<Term>)>>,
    /// Each action's parameter domains, narrowed by its unary statics.
    pub domains: Vec<Vec<Vec<Sym>>>,
    /// Every action's raw operators, action by action.
    pub raws: Vec<RawOp>,
    /// The fact table: the atoms the operators name, then the initial
    /// ones, then the goal ones.
    pub facts: Vec<(Sym, Vec<Sym>)>,
    /// The goal atoms' fact ids, in goal order.
    pub goal: Vec<usize>,
    /// The operators over fact ids, one per raw operator.
    pub ops: Vec<ReachOp>,
    /// Which facts hold initially.
    pub init_true: Vec<bool>,
    /// Which facts relaxed reachability reaches, and which operators are live.
    pub reached: Vec<bool>,
    pub live: Vec<bool>,
}

/// The raw operators of the first `n` actions over the binding lists
/// `tss`, action by action.
pub open spec fn task_ops(
    acts: Seq<Action>,
    tss: Seq<Seq<Seq<usize>>>,
    doms: Seq<Vec<Vec<Sym>>>,
    lits: Seq<Vec<(Sym, Vec<Term>)>>,
    init: Seq<AtomView>,
    objs: Seq<(Sym, Vec<Sym>)>,
    st: StaticsView,
    n: nat,
) -> Seq<RawView>
    decreases n,
{
    if n == 0 {
        seq![]
    } else {
        let k = n - 1;
        task_ops(acts, tss, doms, lits, init, objs, st, (n - 1) as nat) + ops_over(
            acts[k],
            tss[k],
            doms[k]@,
            lits[k]@,
            init,
            objs,
            st,
        )
    }
}

/// Whether `tss` holds, for each of the first `n` actions, exactly its
/// surviving bindings in row-major order.
pub open spec fn all_surviving(
    acts: Seq<Action>,
    tss: Seq<Seq<Seq<usize>>>,
    doms: Seq<Vec<Vec<Sym>>>,
    lits: Seq<Vec<(Sym, Vec<Term>)>>,
    init: Seq<AtomView>,
    n: nat,
) -> bool {
    forall|k: int| 0 <= k < n ==> surviving(#[trigger] tss[k], acts[k].params@, doms[k]@, lits[k]@, init)
}

proof fn lemma_task_ops_prefix(
    acts: Seq<Action>,
    tss: Seq<Seq<Seq<usize>>>,
    doms: Seq<Vec<Vec<Sym>>>,
    doms2: Seq<Vec<Vec<Sym>>>,
    lits: Seq<Vec<(Sym, Vec<Term>)>>,
    lits2: Seq<Vec<(Sym, Vec<Term>)>>,
    init: Seq<AtomView>,
    objs: Seq<(Sym, Vec<Sym>)>,
    st: StaticsView,
    n: nat,
)
    requires
        forall|k: int| 0 <= k < n ==> doms[k] == doms2[k] && lits[k] == lits2[k],
    ensures
        task_ops(acts, tss, doms, lits, init, objs, st, n) == task_ops(acts, tss, doms2, lits2, init, objs, st, n),
    decreases n,
{
    if n > 0 {
        lemma_task_ops_prefix(acts, tss, doms, doms2, lits, lits2, init, objs, st, (n - 1) as nat);
    }
}

/// Whether the binding walk of an action with `params` and precondition
/// `pre`, over the static literals `l` and the domains `d` they narrow,
/// runs out of `budget` ticks.
pub open spec fn walk_over(
    params: Seq<(Sym, Sym)>,
    pre: Formula,
    objs: Seq<(Sym, Vec<Sym>)>,
    iv: Seq<AtomView>,
    add: Seq<Seq<char>>,
    d: Seq<Vec<Sym>>,
    l: Seq<(Sym, Vec<Term>)>,
    budget: u64,
) -> bool {
    &&& lits_view(l) == top_statics(pre, add)
    &&& d.len() == params.len()
    &&& forall|i: int| 0 <= i < params.len() ==> strs((#[trigger] d[i])@) == restricted(i, params, objs, l, iv)
    &&& cost(params, d, l, iv) > budget || reordered_cost_exceeds(params, d, l, iv, budget)
}

/// Whether the binding walk of the task's action `k` runs out of `budget`
/// ticks.
pub open spec fn wall_hit(task: LiftedTask, k: int, budget: u64) -> bool {
    let a = task.actions@[k];
    exists|d: Seq<Vec<Sym>>, l: Seq<(Sym, Vec<Term>)>|
        #[trigger] walk_over(
            a.params@,
            a.precond,
            task.objs@,
            atom_views(task.init@),
            action_preds(task.actions@, true),
            d,
            l,
            budget,
        )
}

/// Whether `g` is the grounding of `task` that `ground_core` describes,
/// with static knowledge when `dnf_static`.
pub open spec fn grounded_ok(task: LiftedTask, dnf_static: bool, g: Grounded) -> bool {
            let acts = task.actions@;
            let n = acts.len();
            let iv = atom_views(task.init@);
            let add = action_preds(acts, true);
            let st: StaticsView = if dnf_static {
                Some((iv, add, action_preds(acts, false)))
            } else {
                None
            };
            &&& g.lits.len() == n && g.domains.len() == n
            &&& forall|k: int| 0 <= k < n ==> lits_view((#[trigger] g.lits@[k])@) == top_statics(acts[k].precond, add)
            &&& forall|k: int| 0 <= k < n ==> (#[trigger] g.domains@[k]).len() == acts[k].params.len()
            &&& forall|k: int, i: int|
                0 <= k < n && 0 <= i < acts[k].params.len() ==> strs((#[trigger] g.domains@[k]@[i])@) == restricted(
                    i,
                    acts[k].params@,
                    task.objs@,
                    g.lits@[k]@,
                    iv,
                )
            &&& forall|tss: Seq<Seq<Seq<usize>>>|
                #[trigger] all_surviving(acts, tss, g.domains@, g.lits@, iv, n) ==> raw_views(g.raws@) == task_ops(
                    acts,
                    tss,
                    g.domains@,
                    g.lits@,
                    iv,
                    task.objs@,
                    st,
                    n,
                )
            &&& atom_views(g.facts@).no_duplicates()
            &&& g.ops.len() == g.raws.len()
            &&& forall|i: int| 0 <= i < g.ops.len() ==> interned_as(atom_views(g.facts@), #[trigger] g.ops@[i], g.raws@[i])
            &&& g.init_true.len() == g.facts.len()
            &&& forall|f: int| 0 <= f < g.facts.len() ==> (#[trigger] g.init_true@[f] <==> iv.contains(atom_views(g.facts@)[f]))
            &&& g.reached.len() == g.facts.len() && g.live.len() == g.ops.len()
            &&& closed(g.reached@, g.init_true@, g.ops@, seq![])
            &&& forall|s: Seq<bool>| #[trigger] closed(s, g.init_true@, g.ops@, seq![]) ==> within(g.reached@, s)
            &&& forall|i: int| 0 <= i < g.ops.len() ==> g.live@[i] == enabled(#[trigger] g.ops@[i], g.reached@)
            &&& atom_views(g.facts@) == absorb(absorb(absorb(seq![], all_refs(g.raws@)), atom_views(task.init@)), atom_views(task.goal@))
            &&& ids_in(atom_views(g.facts@), g.goal@)
            &&& named(atom_views(g.facts@), g.goal@) == atom_views(task.goal@)
            &&& ids_below(g.ops@, seq![], g.facts.len() as nat)
}

/// Ground a lifted task up to relaxed reachability: for each action, its
/// static precondition literals (over the predicates no action adds) and
/// its parameter domains narrowed by them, then its raw operators over its
/// surviving bindings (with static knowledge when `dnf_static`, and the
/// most-constrained walk order when `mcv`); then the fact table the
/// operators and the initial state name, the operators over it, the
/// initial state, and relaxed reachability. `None` when some action's
/// binding walk runs out of its `budget` ticks.
pub fn ground_core(task: &LiftedTask, dnf_static: bool, mcv: bool, budget: u64) -> (r: Option<Grounded>)
    requires
        forall|k: int| 0 <= k < task.actions.len() ==> #[trigger] task.actions@[k].params.len() < usize::MAX,
    ensures
        r matches Some(g) ==> grounded_ok(*task, dnf_static, g),
        r is None ==> exists|k: int| 0 <= k < task.actions.len() && #[trigger] wall_hit(*task, k, budget),

{
    let acts = &task.actions;
    let ghost iv = atom_views(task.init@);
    let add_preds = predicates_of(acts, true);
    let del_preds = predicates_of(acts, false);
    let statics = Statics { init: copy_atoms_list(&task.init), add_preds: copy_strs(&add_preds), del_preds };
    let st: Option<&Statics> = if dnf_static {
        Some(&statics)
    } else {
        None
    };
    let ghost sv = statics_view(st);
    assert(dnf_static ==> sv == Some((iv, action_preds(acts@, true), action_preds(acts@, false))));
    assert(!dnf_static ==> sv is None);
    let mut lits: Vec<Vec<(Sym, Vec<Term>)>> = Vec::new();
    let mut domains: Vec<Vec<Vec<Sym>>> = Vec::new();
    let mut raws: Vec<RawOp> = Vec::new();
    let mut k: usize = 0;
    while k < acts.len()
        invariant
            k <= acts.len(),
            *acts == task.actions,
            forall|j: int| 0 <= j < acts.len() ==> #[trigger] acts@[j].params.len() < usize::MAX,
            iv == atom_views(task.init@),
            sv == statics_view(st),
            strs(add_preds@) == action_preds(acts@, true),
            lits.len() == k && domains.len() == k,
            forall|j: int| 0 <= j < k ==> lits_view((#[trigger] lits@[j])@) == top_statics(acts@[j].precond, strs(add_preds@)),
            forall|j: int| 0 <= j < k ==> (#[trigger] domains@[j]).len() == acts@[j].params.len(),
            forall|j: int, i: int|
                0 <= j < k && 0 <= i < acts@[j].params.len() ==> strs((#[trigger] domains@[j]@[i])@) == restricted(
                    i,
                    acts@[j].params@,
                    task.objs@,
                    lits@[j]@,
                    iv,
                ),
            forall|tss: Seq<Seq<Seq<usize>>>|
                #[trigger] all_surviving(acts@, tss, domains@, lits@, iv, k as nat) ==> raw_views(raws@) == task_ops(
                    acts@,
                    tss,
                    domains@,
                    lits@,
                    iv,
                    task.objs@,
                    sv,
                    k as nat,
                ),
        decreases acts.len() - k,
    {
        let a = &acts[k];
        let l = static_top_atoms(&a.precond, &add_preds);
        let d = restricted_domains(&a.params, &task.objs, &l, &task.init);
        let ops = match ground_action(a, &d, &l, &task.init, &task.objs, st, mcv, budget) {
            Some(ops) => ops,
            None => {
                proof {
                    assert(walk_over(a.params@, a.precond, task.objs@, iv, strs(add_preds@), d@, l@, budget));
                    assert(wall_hit(*task, k as int, budget));
                }
                return None;
            },
        };
        let ghost raws0 = raws@;
        let ghost lits0 = lits@;
        let ghost doms0 = domains@;
        let ghost ops0 = ops@;
        let ghost dk = d;
        let ghost lk = l;
        assert(forall|ts: Seq<Seq<usize>>|
            #[trigger] surviving(ts, acts@[k as int].params@, dk@, lk@, iv) ==> raw_views(ops0) == ops_over(
                acts@[k as int],
                ts,
                dk@,
                lk@,
                iv,
                task.objs@,
                sv,
            ));
        let mut ops = ops;
        raws.append(&mut ops);
        lits.push(l);
        domains.push(d);
        proof {
            assert(raw_views(raws@) =~= raw_views(raws0) + raw_views(ops0));
            assert(domains@[k as int] == dk && lits@[k as int] == lk);
        }
        let ghost k0 = k;
        k = k + 1;
        proof {
            assert forall|tss: Seq<Seq<Seq<usize>>>|
                #[trigger] all_surviving(acts@, tss, domains@, lits@, iv, k as nat) implies raw_views(raws@) == task_ops(
                    acts@,
                    tss,
                    domains@,
                    lits@,
                    iv,
                    task.objs@,
                    sv,
                    k as nat,
                ) by {
                assert forall|j: int| 0 <= j < k0 implies surviving(#[trigger] tss[j], acts@[j].params@, doms0[j]@, lits0[j]@, iv) by {
                    assert(surviving(tss[j], acts@[j].params@, domains@[j]@, lits@[j]@, iv));
                    assert(domains@[j] == doms0[j] && lits@[j] == lits0[j]);
                }
                assert(all_surviving(acts@, tss, doms0, lits0, iv, k0 as nat));
                assert(raw_views(raws0) == task_ops(acts@, tss, doms0, lits0, iv, task.objs@, sv, k0 as nat));
                lemma_task_ops_prefix(acts@, tss, doms0, domains@, lits0, lits@, iv, task.objs@, sv, k0 as nat);
                assert(surviving(tss[k0 as int], acts@[k0 as int].params@, dk@, lk@, iv));
                assert(raw_views(ops0) == ops_over(acts@[k0 as int], tss[k0 as int], dk@, lk@, iv, task.objs@, sv));
                assert(task_ops(acts@, tss, domains@, lits@, iv, task.objs@, sv, k as nat) == task_ops(
                    acts@,
                    tss,
                    domains@,
                    lits@,
                    iv,
                    task.objs@,
                    sv,
                    k0 as nat,
                ) + ops_over(acts@[k0 as int], tss[k0 as int], domains@[k0 as int]@, lits@[k0 as int]@, iv, task.objs@, sv));
                assert(raw_views(raws@) == task_ops(acts@, tss, domains@, lits@, iv, task.objs@, sv, k as nat));
            }
        }
    }
    let (mut facts, ops) = intern_ops(&raws);
    let ghost t1 = atom_views(facts@);
    let init_ids = intern_atoms(&mut facts, &task.init);
    let ghost t15 = atom_views(facts@);
    let goal_ids = intern_atoms(&mut facts, &task.goal);
    let ghost gv = atom_views(task.goal@);
    let ghost t2 = atom_views(facts@);
    proof {
        assert forall|i: int| 0 <= i < ops.len() implies interned_as(t2, #[trigger] ops@[i], raws@[i]) by {
            let q = ops@[i];
            assert(interned_as(t1, q, raws@[i]));
            lemma_named_stable(t1, iv, q.pre@);
            lemma_named_stable(t1, iv, q.add@);
            lemma_named_stable(t1, iv, q.cond_add@);
            lemma_named_stable(t1, iv, q.del@);
            lemma_named_stable(t1, iv, q.cond_pre@);
            lemma_named_stable(t15, gv, q.pre@);
            lemma_named_stable(t15, gv, q.add@);
            lemma_named_stable(t15, gv, q.cond_add@);
            lemma_named_stable(t15, gv, q.del@);
            lemma_named_stable(t15, gv, q.cond_pre@);
        }
        lemma_named_stable(t15, gv, init_ids@);
    }
    let n = facts.len();
    let mut init_true: Vec<bool> = Vec::new();
    let mut f: usize = 0;
    while f < n
        invariant
            f <= n,
            init_true.len() == f,
            forall|g: int| 0 <= g < f ==> !init_true@[g],
        decreases n - f,
    {
        init_true.push(false);
        f = f + 1;
    }
    let mut j: usize = 0;
    while j < init_ids.len()
        invariant
            j <= init_ids.len(),
            init_true.len() == n,
            n == facts.len(),
            t2 == atom_views(facts@),
            ids_in(t2, init_ids@),
            forall|g: int| 0 <= g < n ==> (#[trigger] init_true@[g] <==> exists|m: int| 0 <= m < j && init_ids@[m] == g),
        decreases init_ids.len() - j,
    {
        let id = init_ids[j];
        init_true.set(id, true);
        proof {
            assert forall|g: int| 0 <= g < n implies (#[trigger] init_true@[g] <==> exists|m: int| 0 <= m < j + 1 && init_ids@[m] == g) by {
                if g == id {
                    assert(init_ids@[j as int] == g);
                }
            }
        }
        j = j + 1;
    }
    proof {
        assert forall|g: int| 0 <= g < n implies (#[trigger] init_true@[g] <==> iv.contains(t2[g])) by {
            if init_true@[g] {
                let m = choose|m: int| 0 <= m < init_ids.len() && init_ids@[m] == g;
                assert(named(t2, init_ids@)[m] == iv[m]);
            }
            if iv.contains(t2[g]) {
                let m = choose|m: int| 0 <= m < iv.len() && iv[m] == t2[g];
                assert(named(t2, init_ids@)[m] == iv[m]);
                let h = init_ids@[m] as int;
                assert(t2[h] == t2[g]);
                assert(h == g);
            }
        }
        assert forall|i: int, q: int| 0 <= i < ops.len() && 0 <= q < ops@[i].pre.len() implies (#[trigger] ops@[i].pre@[q]) < n by {
            assert(interned_as(t2, ops@[i], raws@[i]));
        }
        assert forall|i: int, q: int| 0 <= i < ops.len() && 0 <= q < ops@[i].add.len() implies (#[trigger] ops@[i].add@[q]) < n by {
            assert(interned_as(t2, ops@[i], raws@[i]));
        }
        assert forall|i: int, q: int| 0 <= i < ops.len() && 0 <= q < ops@[i].cond_add.len() implies (#[trigger] ops@[i].cond_add@[q]) < n by {
            assert(interned_as(t2, ops@[i], raws@[i]));
        }
        assert forall|i: int, q: int| 0 <= i < ops.len() && 0 <= q < ops@[i].del.len() implies (#[trigger] ops@[i].del@[q]) < n by {
            assert(interned_as(t2, ops@[i], raws@[i]));
        }
        assert forall|i: int, q: int| 0 <= i < ops.len() && 0 <= q < ops@[i].cond_pre.len() implies (#[trigger] ops@[i].cond_pre@[q]) < n by {
            assert(interned_as(t2, ops@[i], raws@[i]));
        }
    }
    let shared: Vec<usize> = Vec::new();
    assert(ids_below(ops@, shared@, n as nat));
    let (reached, live) = relaxed_reach(&init_true, &ops, &shared);
    assert(shared@ =~= Seq::<usize>::empty());
    Some(Grounded { lits, domains, raws, facts, goal: goal_ids, ops, init_true, reached, live })
}

fn copy_atoms_list(v: &Vec<(Sym, Vec<Sym>)>) -> (r: Vec<(Sym, Vec<Sym>)>)
    ensures
        atom_views(r@) == atom_views(v@),
{
    let mut r: Vec<(Sym, Vec<Sym>)> = Vec::new();
    crate::dnf::push_atoms(&mut r, v);
    assert(atom_views(Seq::<(Sym, Vec<Sym>)>::empty()) =~= seq![]);
    assert(atom_views(r@) =~= atom_views(v@));
    r
}


/// Whether a leaf of the effect tree `e` adds (`add`) or deletes
/// (otherwise) the predicate `p`, at any depth: under conjunctions,
/// conditions and universal effects alike.
pub open spec fn touches(e: Effect, p: Seq<char>, add: bool) -> bool
    decreases e, 0int,
{
    match e {
        Effect::Add(q, _) => add && q@ == p,
        Effect::Del(q, _) => !add && q@ == p,
        Effect::And(es) => touches_any(es@, p, add),
        Effect::When(_, inner) => touches(*inner, p, add),
        Effect::Forall(_, inner) => touches(*inner, p, add),
        Effect::Num(_, _, _, _) => false,
    }
}

pub open spec fn touches_any(es: Seq<Effect>, p: Seq<char>, add: bool) -> bool
    decreases es, 1int,
{
    es.len() > 0 && (touches_any(es.drop_last(), p, add) || touches(es.last(), p, add))
}

proof fn lemma_eff_preds_touch(e: Effect, p: Seq<char>, add: bool)
    ensures
        eff_preds(e, add).contains(p) <==> touches(e, p, add),
    decreases e, 0int,
{
    match e {
        Effect::Add(q, _) => {
            if add {
                assert(seq![q@][0] == q@);
            }
        },
        Effect::Del(q, _) => {
            if !add {
                assert(seq![q@][0] == q@);
            }
        },
        Effect::And(es) => {
            assert(decreases_to!(e => e->And_0));
            assert(decreases_to!(e->And_0 => e->And_0@));
            lemma_eff_preds_all_touch(es@, p, add);
        },
        Effect::When(_, inner) => {
            assert(decreases_to!(e => e->When_1));
            lemma_eff_preds_touch(*inner, p, add);
        },
        Effect::Forall(_, inner) => {
            assert(decreases_to!(e => e->Forall_1));
            lemma_eff_preds_touch(*inner, p, add);
        },
        Effect::Num(_, _, _, _) => {},
    }
}

proof fn lemma_eff_preds_all_touch(es: Seq<Effect>, p: Seq<char>, add: bool)
    ensures
        eff_preds_all(es, add).contains(p) <==> touches_any(es, p, add),
    decreases es, 1int,
{
    if es.len() > 0 {
        assert(decreases_to!(es => es[es.len() - 1]));
        lemma_eff_preds_all_touch(es.drop_last(), p, add);
        lemma_eff_preds_touch(es.last(), p, add);
        lemma_contains_cat(eff_preds_all(es.drop_last(), add), eff_preds(es.last(), add), p);
    }
}

proof fn lemma_contains_cat(x: Seq<Seq<char>>, y: Seq<Seq<char>>, p: Seq<char>)
    ensures
        (x + y).contains(p) <==> (x.contains(p) || y.contains(p)),
{
    if x.contains(p) {
        let i = choose|i: int| 0 <= i < x.len() && x[i] == p;
        assert((x + y)[i] == p);
    }
    if y.contains(p) {
        let i = choose|i: int| 0 <= i < y.len() && y[i] == p;
        assert((x + y)[x.len() + i] == p);
    }
    if (x + y).contains(p) {
        let i = choose|i: int| 0 <= i < (x + y).len() && (x + y)[i] == p;
        if i < x.len() {
            assert(x[i] == p);
        } else {
            assert(y[i - x.len()] == p);
        }
    }
}

/// The predicates the actions add (or delete) are exactly those that
/// some leaf of some action's effect adds (or deletes), whatever
/// conditional or universal effect it sits under: a predicate added only
/// under a `when` is added, and so not static.
pub proof fn law_touched_predicates_are_exactly_the_collected_ones(acts: Seq<Action>, p: Seq<char>, add: bool)
    ensures
        action_preds(acts, add).contains(p) <==> exists|k: int|
            0 <= k < acts.len() && touches(#[trigger] acts[k].effect, p, add),
    decreases acts.len(),
{
    if acts.len() > 0 {
        let rest = acts.drop_last();
        law_touched_predicates_are_exactly_the_collected_ones(rest, p, add);
        lemma_eff_preds_touch(acts.last().effect, p, add);
        lemma_contains_cat(action_preds(rest, add), eff_preds(acts.last().effect, add), p);
        if exists|k: int| 0 <= k < acts.len() && touches(#[trigger] acts[k].effect, p, add) {
            let k = choose|k: int| 0 <= k < acts.len() && touches(#[trigger] acts[k].effect, p, add);
            if k < acts.len() - 1 {
                assert(rest[k] == acts[k]);
            }
        }
        if exists|k: int| 0 <= k < rest.len() && touches(#[trigger] rest[k].effect, p, add) {
            let k = choose|k: int| 0 <= k < rest.len() && touches(#[trigger] rest[k].effect, p, add);
            assert(acts[k] == rest[k]);
        }
    }
}
} // verus!
