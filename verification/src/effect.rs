//! Grounding of action effects: an effect tree under a binding becomes
//! plain adds, deletes and numeric assignments, plus conditional effects,
//! one for each DNF disjunct of each `when` condition on the way down.

use vstd::prelude::*;
use crate::binding::{atom_views, strs, AtomView};
use crate::dnf::{
    args_value, bind_view, bviews, combos, combos_exec, conj_view, dnf, dnf_view, empty_conj,
    is_truth, join, join_conj, num_under, push_atoms, push_lits, statics_view, subst_num, to_dnf,
    truth, args_under, Binding, ConjView, Conjunct, Formula, NumExpr, NumView, Objects, Statics,
    StaticsView, lit_view, NumLit,
};
use crate::types::{Sym, Term};

verus! {

/// How a numeric effect changes its fluent.
#[derive(Clone, Copy, Debug, PartialEq, Eq)]
pub enum AssignOp {
    Assign,
    Increase,
    Decrease,
    ScaleUp,
    ScaleDown,
}

/// A lifted effect.
#[derive(Debug, PartialEq, Eq)]
pub enum Effect {
    And(Vec<Effect>),
    Add(Sym, Vec<Term>),
    Del(Sym, Vec<Term>),
    Num(AssignOp, Sym, Vec<Term>, NumExpr),
    Forall(Vec<(Sym, Sym)>, Box<Effect>),
    When(Formula, Box<Effect>),
}

/// A ground conditional effect: it fires when its condition holds.
#[derive(Debug, PartialEq, Eq)]
pub struct CondEffect {
    pub cond: Conjunct,
    pub add: Vec<(Sym, Vec<Sym>)>,
    pub del: Vec<(Sym, Vec<Sym>)>,
    pub num: Vec<(AssignOp, Sym, Vec<Sym>, NumExpr)>,
}

/// A ground effect: what it adds, deletes and assigns unconditionally,
/// and its conditional effects.
#[derive(Debug, PartialEq, Eq)]
pub struct GroundEffect {
    pub add: Vec<(Sym, Vec<Sym>)>,
    pub del: Vec<(Sym, Vec<Sym>)>,
    pub num: Vec<(AssignOp, Sym, Vec<Sym>, NumExpr)>,
    pub cond: Vec<CondEffect>,
}

pub type NumEffView = (AssignOp, Seq<char>, Seq<Seq<char>>, NumView);

pub type CondView = (ConjView, Seq<AtomView>, Seq<AtomView>, Seq<NumEffView>);

pub type EffView = (Seq<AtomView>, Seq<AtomView>, Seq<NumEffView>, Seq<CondView>);

pub open spec fn num_eff_view(n: (AssignOp, Sym, Vec<Sym>, NumExpr)) -> NumEffView {
    (n.0, n.1@, strs(n.2@), crate::dnf::num_view(n.3))
}

pub open spec fn num_effs(v: Seq<(AssignOp, Sym, Vec<Sym>, NumExpr)>) -> Seq<NumEffView> {
    v.map_values(|n: (AssignOp, Sym, Vec<Sym>, NumExpr)| num_eff_view(n))
}

pub open spec fn cond_view(c: CondEffect) -> CondView {
    (conj_view(c.cond), atom_views(c.add@), atom_views(c.del@), num_effs(c.num@))
}

pub open spec fn eff_view(g: GroundEffect) -> EffView {
    (atom_views(g.add@), atom_views(g.del@), num_effs(g.num@), g.cond@.map_values(|c: CondEffect| cond_view(c)))
}

pub open spec fn no_effect() -> EffView {
    (seq![], seq![], seq![], seq![])
}

pub open spec fn cat_eff(x: EffView, y: EffView) -> EffView {
    (x.0 + y.0, x.1 + y.1, x.2 + y.2, x.3 + y.3)
}

/// A leaf under the condition `ctx`: unconditional when `ctx` is just
/// true, else one conditional effect carrying `ctx`.
pub open spec fn leaf(ctx: ConjView, add: Seq<AtomView>, del: Seq<AtomView>, num: Seq<NumEffView>) -> EffView {
    if is_truth(ctx) {
        (add, del, num, seq![])
    } else {
        (seq![], seq![], seq![], seq![(ctx, add, del, num)])
    }
}

/// The ground effect of `e` under the binding `b` and the condition `ctx`,
/// in the order the tree lists its parts.
pub open spec fn eff_of(e: Effect, b: Binding, ctx: ConjView, objs: Objects, st: StaticsView) -> EffView
    decreases e, 0int,
{
    match e {
        Effect::And(es) => eff_all(es@, b, ctx, objs, st),
        Effect::Add(p, a) => leaf(ctx, seq![(p@, args_under(a@, b))], seq![], seq![]),
        Effect::Del(p, a) => leaf(ctx, seq![], seq![(p@, args_under(a@, b))], seq![]),
        Effect::Num(op, f, a, v) => leaf(ctx, seq![], seq![], seq![(op, f@, args_under(a@, b), num_under(v, b))]),
        Effect::Forall(vars, inner) => eff_bindings(*inner, combos(vars@, b, objs), ctx, objs, st),
        Effect::When(cond, inner) => eff_disjuncts(*inner, b, ctx, dnf(cond, b, false, objs, st), objs, st),
    }
}

pub open spec fn eff_all(es: Seq<Effect>, b: Binding, ctx: ConjView, objs: Objects, st: StaticsView) -> EffView
    decreases es, 1int,
{
    if es.len() == 0 {
        no_effect()
    } else {
        cat_eff(eff_all(es.drop_last(), b, ctx, objs, st), eff_of(es.last(), b, ctx, objs, st))
    }
}

pub open spec fn eff_bindings(e: Effect, cs: Seq<Binding>, ctx: ConjView, objs: Objects, st: StaticsView) -> EffView
    decreases e, cs.len() + 1,
{
    if cs.len() == 0 {
        no_effect()
    } else {
        cat_eff(eff_bindings(e, cs.drop_last(), ctx, objs, st), eff_of(e, cs.last(), ctx, objs, st))
    }
}

pub open spec fn eff_disjuncts(e: Effect, b: Binding, ctx: ConjView, ds: Seq<ConjView>, objs: Objects, st: StaticsView) -> EffView
    decreases e, ds.len() + 1,
{
    if ds.len() == 0 {
        no_effect()
    } else {
        cat_eff(eff_disjuncts(e, b, ctx, ds.drop_last(), objs, st), eff_of(e, b, join(ctx, ds.last()), objs, st))
    }
}

fn copy_conj(c: &Conjunct) -> (r: Conjunct)
    ensures
        conj_view(r) == conj_view(*c),
{
    let e = empty_conj();
    let r = join_conj(&e, c);
    assert(conj_view(r).0 =~= conj_view(*c).0);
    assert(conj_view(r).1 =~= conj_view(*c).1);
    assert(conj_view(r).2 =~= conj_view(*c).2);
    r
}

fn is_empty_conj(c: &Conjunct) -> (r: bool)
    ensures
        r == is_truth(conj_view(*c)),
{
    c.pos.len() == 0 && c.neg.len() == 0 && c.num.len() == 0
}

/// Append one leaf under `ctx` to `out` (see [`leaf`]).
fn push_leaf(
    out: &mut GroundEffect,
    ctx: &Conjunct,
    add: Vec<(Sym, Vec<Sym>)>,
    del: Vec<(Sym, Vec<Sym>)>,
    num: Vec<(AssignOp, Sym, Vec<Sym>, NumExpr)>,
)
    ensures
        eff_view(*final(out)) == cat_eff(
            eff_view(*old(out)),
            leaf(conj_view(*ctx), atom_views(add@), atom_views(del@), num_effs(num@)),
        ),
{
    let ghost o = eff_view(*out);
    let ghost av = atom_views(add@);
    let ghost dv = atom_views(del@);
    let ghost nv = num_effs(num@);
    if is_empty_conj(ctx) {
        let mut add = add;
        let mut del = del;
        let mut num = num;
        out.add.append(&mut add);
        out.del.append(&mut del);
        out.num.append(&mut num);
        proof {
            assert(eff_view(*out).0 =~= o.0 + av);
            assert(eff_view(*out).1 =~= o.1 + dv);
            assert(eff_view(*out).2 =~= o.2 + nv);
            assert(eff_view(*out).3 =~= o.3 + Seq::<CondView>::empty());
        }
    } else {
        let c = CondEffect { cond: copy_conj(ctx), add, del, num };
        let ghost cv = cond_view(c);
        out.cond.push(c);
        proof {
            assert(eff_view(*out).0 =~= o.0 + Seq::<AtomView>::empty());
            assert(eff_view(*out).1 =~= o.1 + Seq::<AtomView>::empty());
            assert(eff_view(*out).2 =~= o.2 + Seq::<NumEffView>::empty());
            assert(eff_view(*out).3 =~= o.3 + seq![cv]);
        }
    }
}

/// Ground the effect `e` under the binding `b` and the condition `ctx`,
/// appending to `out` (see [`eff_of`]).
pub fn ground_effect(
    e: &Effect,
    b: &Vec<(Sym, Sym)>,
    objs: &Vec<(Sym, Vec<Sym>)>,
    ctx: &Conjunct,
    out: &mut GroundEffect,
    st: Option<&Statics>,
)
    ensures
        eff_view(*final(out)) == cat_eff(
            eff_view(*old(out)),
            eff_of(*e, bind_view(b@), conj_view(*ctx), objs@, statics_view(st)),
        ),
    decreases *e, 0int,
{
    match e {
        Effect::And(es) => {
            proof {
                assert(decreases_to!(*e => (*e)->And_0));
                assert(decreases_to!((*e)->And_0 => (*e)->And_0@));
            }
            effects_all(es, b, objs, ctx, out, st);
        },
        Effect::Add(p, a) => {
            let atom = (p.clone(), args_value(a, b));
            let v = vec![atom];
            assert(atom_views(v@) =~= seq![(p@, args_under(a@, bind_view(b@)))]);
            let d: Vec<(Sym, Vec<Sym>)> = Vec::new();
            let n: Vec<(AssignOp, Sym, Vec<Sym>, NumExpr)> = Vec::new();
            assert(atom_views(d@) =~= seq![]);
            assert(num_effs(n@) =~= seq![]);
            push_leaf(out, ctx, v, d, n);
        },
        Effect::Del(p, a) => {
            let atom = (p.clone(), args_value(a, b));
            let v = vec![atom];
            assert(atom_views(v@) =~= seq![(p@, args_under(a@, bind_view(b@)))]);
            let d: Vec<(Sym, Vec<Sym>)> = Vec::new();
            let n: Vec<(AssignOp, Sym, Vec<Sym>, NumExpr)> = Vec::new();
            assert(atom_views(d@) =~= seq![]);
            assert(num_effs(n@) =~= seq![]);
            push_leaf(out, ctx, d, v, n);
        },
        Effect::Num(op, f, a, val) => {
            let ne = (*op, f.clone(), args_value(a, b), subst_num(val, b));
            let n = vec![ne];
            assert(num_effs(n@) =~= seq![(*op, f@, args_under(a@, bind_view(b@)), num_under(*val, bind_view(b@)))]);
            let d1: Vec<(Sym, Vec<Sym>)> = Vec::new();
            let d2: Vec<(Sym, Vec<Sym>)> = Vec::new();
            assert(atom_views(d1@) =~= seq![]);
            assert(atom_views(d2@) =~= seq![]);
            push_leaf(out, ctx, d1, d2, n);
        },
        Effect::Forall(vars, inner) => {
            let cs = combos_exec(vars, b, objs);
            proof {
                assert(decreases_to!(*e => (*e)->Forall_1));
            }
            effects_bindings(inner, &cs, objs, ctx, out, st);
        },
        Effect::When(cond, inner) => {
            let ds = to_dnf(cond, b, false, objs, st);
            proof {
                assert(decreases_to!(*e => (*e)->When_1));
            }
            effects_disjuncts(inner, b, objs, ctx, &ds, out, st);
        },
    }
}

fn effects_all(
    es: &Vec<Effect>,
    b: &Vec<(Sym, Sym)>,
    objs: &Vec<(Sym, Vec<Sym>)>,
    ctx: &Conjunct,
    out: &mut GroundEffect,
    st: Option<&Statics>,
)
    ensures
        eff_view(*final(out)) == cat_eff(
            eff_view(*old(out)),
            eff_all(es@, bind_view(b@), conj_view(*ctx), objs@, statics_view(st)),
        ),
    decreases es@, 1int,
{
    let ghost o = eff_view(*out);
    let ghost bv = bind_view(b@);
    let ghost sv = statics_view(st);
    let ghost cv = conj_view(*ctx);
    let mut i: usize = 0;
    assert(cat_eff(o, no_effect()) =~= o);
    assert(es@.take(0) =~= Seq::<Effect>::empty());
    while i < es.len()
        invariant
            i <= es.len(),
            bv == bind_view(b@),
            sv == statics_view(st),
            cv == conj_view(*ctx),
            eff_view(*out) == cat_eff(o, eff_all(es@.take(i as int), bv, cv, objs@, sv)),
        decreases es.len() - i,
    {
        proof {
            assert(decreases_to!(es@ => es@[i as int]));
            let pre = es@.take(i + 1);
            assert(pre.drop_last() =~= es@.take(i as int));
            assert(pre.last() == es@[i as int]);
        }
        let ghost mid = eff_view(*out);
        ground_effect(&es[i], b, objs, ctx, out, st);
        proof {
            let x = eff_all(es@.take(i as int), bv, cv, objs@, sv);
            let y = eff_of(es@[i as int], bv, cv, objs@, sv);
            assert(cat_eff(cat_eff(o, x), y) =~= cat_eff(o, cat_eff(x, y)));
        }
        i = i + 1;
    }
    assert(es@.take(i as int) =~= es@);
}

fn effects_bindings(
    e: &Effect,
    cs: &Vec<Vec<(Sym, Sym)>>,
    objs: &Vec<(Sym, Vec<Sym>)>,
    ctx: &Conjunct,
    out: &mut GroundEffect,
    st: Option<&Statics>,
)
    ensures
        eff_view(*final(out)) == cat_eff(
            eff_view(*old(out)),
            eff_bindings(*e, bviews(cs@), conj_view(*ctx), objs@, statics_view(st)),
        ),
    decreases *e, cs@.len() + 1,
{
    let ghost o = eff_view(*out);
    let ghost sv = statics_view(st);
    let ghost cv = conj_view(*ctx);
    let mut i: usize = 0;
    assert(cat_eff(o, no_effect()) =~= o);
    assert(bviews(cs@).take(0) =~= Seq::<Binding>::empty());
    while i < cs.len()
        invariant
            i <= cs.len(),
            sv == statics_view(st),
            cv == conj_view(*ctx),
            eff_view(*out) == cat_eff(o, eff_bindings(*e, bviews(cs@).take(i as int), cv, objs@, sv)),
        decreases cs.len() - i,
    {
        proof {
            let pre = bviews(cs@).take(i + 1);
            assert(pre.drop_last() =~= bviews(cs@).take(i as int));
            assert(pre.last() == bind_view(cs@[i as int]@));
        }
        ground_effect(e, &cs[i], objs, ctx, out, st);
        proof {
            let x = eff_bindings(*e, bviews(cs@).take(i as int), cv, objs@, sv);
            let y = eff_of(*e, bind_view(cs@[i as int]@), cv, objs@, sv);
            assert(cat_eff(cat_eff(o, x), y) =~= cat_eff(o, cat_eff(x, y)));
        }
        i = i + 1;
    }
    assert(bviews(cs@).take(i as int) =~= bviews(cs@));
}

fn effects_disjuncts(
    e: &Effect,
    b: &Vec<(Sym, Sym)>,
    objs: &Vec<(Sym, Vec<Sym>)>,
    ctx: &Conjunct,
    ds: &Vec<Conjunct>,
    out: &mut GroundEffect,
    st: Option<&Statics>,
)
    ensures
        eff_view(*final(out)) == cat_eff(
            eff_view(*old(out)),
            eff_disjuncts(*e, bind_view(b@), conj_view(*ctx), dnf_view(ds@), objs@, statics_view(st)),
        ),
    decreases *e, ds@.len() + 1,
{
    let ghost o = eff_view(*out);
    let ghost bv = bind_view(b@);
    let ghost sv = statics_view(st);
    let ghost cv = conj_view(*ctx);
    let mut i: usize = 0;
    assert(cat_eff(o, no_effect()) =~= o);
    assert(dnf_view(ds@).take(0) =~= Seq::<ConjView>::empty());
    while i < ds.len()
        invariant
            i <= ds.len(),
            bv == bind_view(b@),
            sv == statics_view(st),
            cv == conj_view(*ctx),
            eff_view(*out) == cat_eff(o, eff_disjuncts(*e, bv, cv, dnf_view(ds@).take(i as int), objs@, sv)),
        decreases ds.len() - i,
    {
        proof {
            let pre = dnf_view(ds@).take(i + 1);
            assert(pre.drop_last() =~= dnf_view(ds@).take(i as int));
            assert(pre.last() == conj_view(ds@[i as int]));
        }
        let merged = join_conj(ctx, &ds[i]);
        ground_effect(e, b, objs, &merged, out, st);
        proof {
            let x = eff_disjuncts(*e, bv, cv, dnf_view(ds@).take(i as int), objs@, sv);
            let y = eff_of(*e, bv, join(cv, conj_view(ds@[i as int])), objs@, sv);
            assert(cat_eff(cat_eff(o, x), y) =~= cat_eff(o, cat_eff(x, y)));
        }
        i = i + 1;
    }
    assert(dnf_view(ds@).take(i as int) =~= dnf_view(ds@));
}

} // verus!
