//! Grounding of one action (the per-action phase of grounding): walk its
//! surviving parameter bindings, keep those whose static literals all
//! hold, expand the precondition to DNF and ground the effect under each,
//! and emit one raw operator per precondition conjunct.

use vstd::prelude::*;
use crate::binding::{
    atom_in, atom_views, bindings, law_walk_order_does_not_move_the_list, strs, surviving, tuples, vals_of,
    AtomView, action_live, all_nonempty, cost, reordered_cost_exceeds,
};
use crate::dnf::{
    args_under, args_value, bind_view, conj_view, dnf, dnf_view, empty_conj, join_conj, push_atoms,
    push_lits, statics_view, to_dnf, truth, Binding, ConjView, Conjunct, Formula, Objects, Statics,
    StaticsView,
};
use crate::effect::{
    cat_eff, cond_view, eff_of, eff_view, ground_effect, num_effs, CondEffect, CondView, EffView,
    Effect, GroundEffect, NumEffView, AssignOp,
};
use crate::text::{cat3, join_sp, join_spaces, views};
use crate::types::{Sym, Term};

verus! {

/// A lifted action.
pub struct Action {
    pub name: Sym,
    pub params: Vec<(Sym, Sym)>,
    pub precond: Formula,
    pub effect: Effect,
    /// Whether the action carries the shared monitor block.
    pub monitored: bool,
}

/// A ground operator before interning: its display name, one precondition
/// conjunct, its ground effect, whether its precondition had more than one
/// conjunct, and whether it carries the shared monitor block.
#[derive(Debug, PartialEq, Eq)]
pub struct RawOp {
    pub display: String,
    pub pre: Conjunct,
    pub eff: GroundEffect,
    pub multi: bool,
    pub monitored: bool,
}

pub type RawView = (Seq<char>, ConjView, EffView, bool, bool);

pub open spec fn raw_view(o: RawOp) -> RawView {
    (o.display@, conj_view(o.pre), eff_view(o.eff), o.multi, o.monitored)
}

pub open spec fn raw_views(v: Seq<RawOp>) -> Seq<RawView> {
    v.map_values(|o: RawOp| raw_view(o))
}

/// The binding a tuple of domain indices gives the parameters.
pub open spec fn binding_of(params: Seq<(Sym, Sym)>, domains: Seq<Vec<Sym>>, t: Seq<usize>) -> Binding {
    Seq::new(t.len(), |i: int| (params[i].0@, domains[i]@[t[i] as int]@))
}

/// An operator's display name: the action's name, then its arguments, all
/// separated by single spaces.
pub open spec fn display_of(name: Seq<char>, vals: Seq<Seq<char>>) -> Seq<char> {
    if vals.len() == 0 {
        name
    } else {
        name + seq![' '] + join_sp(vals)
    }
}

/// Whether every static literal, under the binding, is in `init`.
pub open spec fn post_ok(lits: Seq<(Sym, Vec<Term>)>, b: Binding, init: Seq<AtomView>) -> bool {
    forall|q: int| 0 <= q < lits.len() ==> init.contains((#[trigger] lits[q].0@, args_under(lits[q].1@, b)))
}

/// The raw operators of one binding: one per conjunct of the
/// precondition's DNF, each with the whole ground effect.
pub open spec fn ops_for(a: Action, b: Binding, vals: Seq<Seq<char>>, objs: Objects, st: StaticsView) -> Seq<RawView> {
    let d = dnf(a.precond, b, false, objs, st);
    let e = eff_of(a.effect, b, truth()[0], objs, st);
    d.map_values(|c: ConjView| (display_of(a.name@, vals), c, e, d.len() > 1, a.monitored))
}

/// The raw operators over the bindings `ts`, in order, of those whose
/// static literals all hold.
pub open spec fn ops_over(
    a: Action,
    ts: Seq<Seq<usize>>,
    domains: Seq<Vec<Sym>>,
    lits: Seq<(Sym, Vec<Term>)>,
    init: Seq<AtomView>,
    objs: Objects,
    st: StaticsView,
) -> Seq<RawView>
    decreases ts.len(),
{
    if ts.len() == 0 {
        seq![]
    } else {
        let t = ts.last();
        let b = binding_of(a.params@, domains, t);
        ops_over(a, ts.drop_last(), domains, lits, init, objs, st) + if post_ok(lits, b, init) {
            ops_for(a, b, vals_of(t, domains), objs, st)
        } else {
            seq![]
        }
    }
}

fn bind_tuple(params: &Vec<(Sym, Sym)>, domains: &Vec<Vec<Sym>>, t: &Vec<usize>) -> (r: Vec<(Sym, Sym)>)
    requires
        params.len() == domains.len(),
        t.len() == domains.len(),
        forall|i: int| 0 <= i < t.len() ==> #[trigger] t@[i] < domains@[i].len(),
    ensures
        bind_view(r@) == binding_of(params@, domains@, t@),
{
    let mut r: Vec<(Sym, Sym)> = Vec::new();
    let mut i: usize = 0;
    while i < t.len()
        invariant
            i <= t.len(),
            params.len() == domains.len(),
            t.len() == domains.len(),
            forall|k: int| 0 <= k < t.len() ==> #[trigger] t@[k] < domains@[k].len(),
            r.len() == i,
            forall|k: int| 0 <= k < i ==> (#[trigger] r@[k]).0@ == params@[k].0@ && r@[k].1@ == domains@[k]@[t@[k] as int]@,
        decreases t.len() - i,
    {
        assert(t@[i as int] < domains@[i as int].len());
        r.push((params[i].0.clone(), domains[i][t[i]].clone()));
        i = i + 1;
    }
    assert(bind_view(r@) =~= binding_of(params@, domains@, t@));
    r
}

fn tuple_values(domains: &Vec<Vec<Sym>>, t: &Vec<usize>) -> (r: Vec<Sym>)
    requires
        t.len() == domains.len(),
        forall|i: int| 0 <= i < t.len() ==> #[trigger] t@[i] < domains@[i].len(),
    ensures
        views(r@) == vals_of(t@, domains@),
{
    let mut r: Vec<Sym> = Vec::new();
    let mut i: usize = 0;
    while i < t.len()
        invariant
            i <= t.len(),
            t.len() == domains.len(),
            forall|k: int| 0 <= k < t.len() ==> #[trigger] t@[k] < domains@[k].len(),
            r.len() == i,
            forall|k: int| 0 <= k < i ==> (#[trigger] r@[k])@ == domains@[k]@[t@[k] as int]@,
        decreases t.len() - i,
    {
        assert(t@[i as int] < domains@[i as int].len());
        r.push(domains[i][t[i]].clone());
        i = i + 1;
    }
    assert(views(r@) =~= vals_of(t@, domains@));
    r
}

fn display_exec(name: &Sym, vals: &Vec<Sym>) -> (r: String)
    ensures
        r@ == display_of(name@, views(vals@)),
{
    if vals.len() == 0 {
        name.clone()
    } else {
        let rest = join_spaces(vals);
        let r = cat3(name.as_str(), " ", rest.as_str());
        proof {
            reveal_strlit(" ");
        }
        r
    }
}

fn lits_hold(lits: &Vec<(Sym, Vec<Term>)>, b: &Vec<(Sym, Sym)>, init: &Vec<(Sym, Vec<Sym>)>) -> (r: bool)
    ensures
        r == post_ok(lits@, bind_view(b@), atom_views(init@)),
{
    let mut q: usize = 0;
    while q < lits.len()
        invariant
            q <= lits.len(),
            forall|k: int| 0 <= k < q ==> atom_views(init@).contains((#[trigger] lits@[k].0@, args_under(lits@[k].1@, bind_view(b@)))),
        decreases lits.len() - q,
    {
        let args = args_value(&lits[q].1, b);
        if !atom_in(init, &lits[q].0, &args) {
            return false;
        }
        q = q + 1;
    }
    true
}

fn copy_num_effs(v: &Vec<(AssignOp, Sym, Vec<Sym>, crate::dnf::NumExpr)>) -> (r: Vec<(AssignOp, Sym, Vec<Sym>, crate::dnf::NumExpr)>)
    ensures
        num_effs(r@) == num_effs(v@),
{
    let mut r: Vec<(AssignOp, Sym, Vec<Sym>, crate::dnf::NumExpr)> = Vec::new();
    let mut i: usize = 0;
    while i < v.len()
        invariant
            i <= v.len(),
            r.len() == i,
            forall|k: int| 0 <= k < i ==> #[trigger] num_effs(r@)[k] == num_effs(v@)[k],
        decreases v.len() - i,
    {
        let n = (v[i].0, v[i].1.clone(), crate::dnf::copy_strs(&v[i].2), crate::dnf::copy_num(&v[i].3));
        let ghost prev = r@;
        r.push(n);
        proof {
            assert forall|k: int| 0 <= k < i + 1 implies #[trigger] num_effs(r@)[k] == num_effs(v@)[k] by {
                if k < i {
                    assert(r@[k] == prev[k]);
                    assert(num_effs(prev)[k] == num_effs(v@)[k]);
                }
            }
        }
        i = i + 1;
    }
    assert(num_effs(r@) =~= num_effs(v@));
    r
}

fn copy_atoms(v: &Vec<(Sym, Vec<Sym>)>) -> (r: Vec<(Sym, Vec<Sym>)>)
    ensures
        atom_views(r@) == atom_views(v@),
{
    let mut r: Vec<(Sym, Vec<Sym>)> = Vec::new();
    push_atoms(&mut r, v);
    assert(atom_views(Seq::<(Sym, Vec<Sym>)>::empty()) =~= seq![]);
    assert(atom_views(r@) =~= atom_views(v@));
    r
}

fn copy_conjunct(c: &Conjunct) -> (r: Conjunct)
    ensures
        conj_view(r) == conj_view(*c),
{
    let e = empty_conj();
    let r = join_conj(&e, c);
    assert(conj_view(r).0 =~= conj_view(*c).0);
    assert(conj_view(r).1 =~= conj_view(*c).1);
    assert(conj_view(r).2 =~= conj_view(*c).2);
    r
}

fn copy_effect(g: &GroundEffect) -> (r: GroundEffect)
    ensures
        eff_view(r) == eff_view(*g),
{
    let mut cond: Vec<CondEffect> = Vec::new();
    let mut i: usize = 0;
    while i < g.cond.len()
        invariant
            i <= g.cond.len(),
            cond.len() == i,
            forall|k: int| 0 <= k < i ==> cond_view(#[trigger] cond@[k]) == cond_view(g.cond@[k]),
        decreases g.cond.len() - i,
    {
        let c = &g.cond[i];
        let n = CondEffect {
            cond: copy_conjunct(&c.cond),
            add: copy_atoms(&c.add),
            del: copy_atoms(&c.del),
            num: copy_num_effs(&c.num),
        };
        let ghost prev = cond@;
        cond.push(n);
        proof {
            assert forall|k: int| 0 <= k < i + 1 implies cond_view(#[trigger] cond@[k]) == cond_view(g.cond@[k]) by {
                if k < i {
                    assert(cond@[k] == prev[k]);
                }
            }
        }
        i = i + 1;
    }
    let r = GroundEffect { add: copy_atoms(&g.add), del: copy_atoms(&g.del), num: copy_num_effs(&g.num), cond };
    assert(eff_view(r).3 =~= eff_view(*g).3);
    r
}

/// The raw operators of one action over its surviving bindings: `domains`
/// are its parameters' (restricted) domains and `static_lits` its static
/// precondition literals; a binding whose static literals do not all hold
/// in `init` is dropped; each kept binding gives one operator per
/// conjunct of its precondition's DNF, each with the whole ground effect.
/// `None` when the binding walk runs out of its tick budget (see
/// [`bindings`]).
pub fn ground_action(
    action: &Action,
    domains: &Vec<Vec<Sym>>,
    static_lits: &Vec<(Sym, Vec<Term>)>,
    init: &Vec<(Sym, Vec<Sym>)>,
    objs: &Vec<(Sym, Vec<Sym>)>,
    st: Option<&Statics>,
    mcv: bool,
    budget: u64,
) -> (r: Option<Vec<RawOp>>)
    requires
        action.params.len() == domains.len(),
    ensures
        r matches Some(ops) ==> forall|ts: Seq<Seq<usize>>|
            #[trigger] surviving(ts, action.params@, domains@, static_lits@, atom_views(init@)) ==> raw_views(ops@)
                == ops_over(*action, ts, domains@, static_lits@, atom_views(init@), objs@, statics_view(st)),
        !mcv ==> (r is None <==> (all_nonempty(domains@) && action_live(static_lits@, action.params@, atom_views(init@))
            && cost(action.params@, domains@, static_lits@, atom_views(init@)) > budget)),
        r is None ==> all_nonempty(domains@),
        r is None ==> cost(action.params@, domains@, static_lits@, atom_views(init@)) > budget
            || reordered_cost_exceeds(action.params@, domains@, static_lits@, atom_views(init@), budget),
{
    let found = bindings(&action.params, domains, static_lits, init, mcv, budget);
    let ts = match found {
        Some(ts) => ts,
        None => return None,
    };
    let ghost tv = tuples(ts@);
    let ghost sv = statics_view(st);
    let ghost iv = atom_views(init@);
    let mut out: Vec<RawOp> = Vec::new();
    let mut i: usize = 0;
    assert(tv.take(0) =~= Seq::<Seq<usize>>::empty());
    while i < ts.len()
        invariant
            i <= ts.len(),
            tv == tuples(ts@),
            sv == statics_view(st),
            iv == atom_views(init@),
            action.params.len() == domains.len(),
            surviving(tv, action.params@, domains@, static_lits@, iv),
            raw_views(out@) == ops_over(*action, tv.take(i as int), domains@, static_lits@, iv, objs@, sv),
        decreases ts.len() - i,
    {
        let t = &ts[i];
        proof {
            assert(tv.contains(tv[i as int]));
            assert(tv[i as int] == t@);
            let pre = tv.take(i + 1);
            assert(pre.drop_last() =~= tv.take(i as int));
            assert(pre.last() == t@);
        }
        let b = bind_tuple(&action.params, domains, t);
        if lits_hold(static_lits, &b, init) {
            let d = to_dnf(&action.precond, &b, false, objs, st);
            let mut eff = GroundEffect { add: Vec::new(), del: Vec::new(), num: Vec::new(), cond: Vec::new() };
            let ghost e0 = eff_view(eff);
            let ctx = empty_conj();
            ground_effect(&action.effect, &b, objs, &ctx, &mut eff, st);
            proof {
                assert(e0.0 =~= seq![]);
                assert(e0.1 =~= seq![]);
                assert(e0.2 =~= seq![]);
                assert(e0.3 =~= seq![]);
                let ev = eff_of(action.effect, bind_view(b@), truth()[0], objs@, sv);
                assert(cat_eff(e0, ev) =~= ev);
            }
            let vals = tuple_values(domains, t);
            let display = display_exec(&action.name, &vals);
            let multi = d.len() > 1;
            let ghost before = out@;
            let ghost want = ops_for(*action, bind_view(b@), vals_of(t@, domains@), objs@, sv);
            let mut j: usize = 0;
            while j < d.len()
                invariant
                    j <= d.len(),
                    out.len() == before.len() + j,
                    want == ops_for(*action, bind_view(b@), vals_of(t@, domains@), objs@, sv),
                    dnf_view(d@) == dnf(action.precond, bind_view(b@), false, objs@, sv),
                    eff_view(eff) == eff_of(action.effect, bind_view(b@), truth()[0], objs@, sv),
                    display@ == display_of(action.name@, vals_of(t@, domains@)),
                    multi == (d.len() > 1),
                    forall|k: int| 0 <= k < before.len() ==> #[trigger] raw_view(out@[k]) == raw_view(before[k]),
                    forall|k: int| 0 <= k < j ==> #[trigger] raw_view(out@[before.len() + k]) == want[k],
                decreases d.len() - j,
            {
                let op = RawOp {
                    display: display.clone(),
                    pre: copy_conjunct(&d[j]),
                    eff: copy_effect(&eff),
                    multi,
                    monitored: action.monitored,
                };
                assert(raw_view(op) == want[j as int]);
                let ghost prev = out@;
                out.push(op);
                proof {
                    assert forall|k: int| 0 <= k < before.len() implies #[trigger] raw_view(out@[k]) == raw_view(before[k]) by {
                        assert(out@[k] == prev[k]);
                    }
                    assert forall|k: int| 0 <= k < j + 1 implies #[trigger] raw_view(out@[before.len() + k]) == want[k] by {
                        if k < j {
                            assert(out@[before.len() + k] == prev[before.len() + k]);
                        }
                    }
                }
                j = j + 1;
            }
            proof {
                let t2 = raw_views(before) + want;
                assert forall|k: int| 0 <= k < out.len() implies #[trigger] raw_views(out@)[k] == t2[k] by {
                    if k >= before.len() {
                        let m = k - before.len();
                        assert(raw_view(out@[before.len() + m]) == want[m]);
                    } else {
                        assert(raw_view(out@[k]) == raw_view(before[k]));
                    }
                }
                assert(raw_views(out@) =~= t2);
            }
        } else {
            proof {
                assert(raw_views(out@) =~= raw_views(out@) + Seq::<RawView>::empty());
            }
        }
        i = i + 1;
    }
    proof {
        assert(tv.take(i as int) =~= tv);
        assert forall|us: Seq<Seq<usize>>|
            #[trigger] surviving(us, action.params@, domains@, static_lits@, iv) implies raw_views(out@)
                == ops_over(*action, us, domains@, static_lits@, iv, objs@, sv) by {
            law_walk_order_does_not_move_the_list(tv, us, action.params@, domains@, static_lits@, iv);
        }
    }
    Some(out)
}

/// The atoms on the top conjunction spine of `f` (through nested `and`s)
/// whose predicate no operator adds: an action's static precondition
/// literals.
pub open spec fn top_statics(f: Formula, add: Seq<Seq<char>>) -> Seq<(Seq<char>, Seq<Term>)>
    decreases f, 0int,
{
    match f {
        Formula::And(fs) => top_statics_all(fs@, add),
        Formula::Atom(p, a) => if add.contains(p@) {
            seq![]
        } else {
            seq![(p@, a@)]
        },
        _ => seq![],
    }
}

pub open spec fn top_statics_all(fs: Seq<Formula>, add: Seq<Seq<char>>) -> Seq<(Seq<char>, Seq<Term>)>
    decreases fs, 1int,
{
    if fs.len() == 0 {
        seq![]
    } else {
        top_statics_all(fs.drop_last(), add) + top_statics(fs.last(), add)
    }
}

fn copy_term_list(a: &Vec<Term>) -> (r: Vec<Term>)
    ensures
        r@ == a@,
{
    let mut r: Vec<Term> = Vec::new();
    let mut i: usize = 0;
    while i < a.len()
        invariant
            i <= a.len(),
            r@ == a@.take(i as int),
        decreases a.len() - i,
    {
        let t = match &a[i] {
            Term::Const(c) => Term::Const(c.clone()),
            Term::Var(v) => Term::Var(v.clone()),
        };
        assert(t == a@[i as int]) by {
            match a@[i as int] {
                Term::Const(c) => {},
                Term::Var(v) => {},
            }
        }
        r.push(t);
        i = i + 1;
        assert(r@ =~= a@.take(i as int));
    }
    assert(a@.take(i as int) =~= a@);
    r
}

pub open spec fn lits_view(v: Seq<(Sym, Vec<Term>)>) -> Seq<(Seq<char>, Seq<Term>)> {
    v.map_values(|l: (Sym, Vec<Term>)| (l.0@, l.1@))
}

/// The static precondition literals of `f` (see [`top_statics`]).
pub fn static_top_atoms(f: &Formula, add_preds: &Vec<Sym>) -> (r: Vec<(Sym, Vec<Term>)>)
    ensures
        lits_view(r@) == top_statics(*f, strs(add_preds@)),
    decreases *f, 0int,
{
    match f {
        Formula::And(fs) => {
            proof {
                assert(decreases_to!(*f => (*f)->And_0));
                assert(decreases_to!((*f)->And_0 => (*f)->And_0@));
            }
            static_top_all(fs, add_preds)
        },
        Formula::Atom(p, a) => {
            if crate::dnf::name_in(add_preds, p) {
                let r: Vec<(Sym, Vec<Term>)> = Vec::new();
                assert(lits_view(r@) =~= seq![]);
                r
            } else {
                let x = (p.clone(), copy_term_list(a));
                let r = vec![x];
                assert(lits_view(r@) =~= seq![(p@, a@)]);
                r
            }
        },
        _ => {
            let r: Vec<(Sym, Vec<Term>)> = Vec::new();
            assert(lits_view(r@) =~= seq![]);
            r
        },
    }
}

fn static_top_all(fs: &Vec<Formula>, add_preds: &Vec<Sym>) -> (r: Vec<(Sym, Vec<Term>)>)
    ensures
        lits_view(r@) == top_statics_all(fs@, strs(add_preds@)),
    decreases fs@, 1int,
{
    let mut r: Vec<(Sym, Vec<Term>)> = Vec::new();
    let mut i: usize = 0;
    assert(fs@.take(0) =~= Seq::<Formula>::empty());
    assert(lits_view(r@) =~= seq![]);
    while i < fs.len()
        invariant
            i <= fs.len(),
            lits_view(r@) == top_statics_all(fs@.take(i as int), strs(add_preds@)),
        decreases fs.len() - i,
    {
        proof {
            assert(decreases_to!(fs@ => fs@[i as int]));
            let pre = fs@.take(i + 1);
            assert(pre.drop_last() =~= fs@.take(i as int));
            assert(pre.last() == fs@[i as int]);
        }
        let mut x = static_top_atoms(&fs[i], add_preds);
        let ghost r0 = r@;
        let ghost x0 = x@;
        r.append(&mut x);
        assert(lits_view(r@) =~= lits_view(r0) + lits_view(x0));
        i = i + 1;
    }
    assert(fs@.take(i as int) =~= fs@);
    r
}

} // verus!
