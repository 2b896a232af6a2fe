//! The monitor automata that enforce the untimed modal trajectory
//! constraints (`always`, `sometime`, `at-most-once`, `sometime-after`,
//! `sometime-before`, `at end`): fresh 0-ary monitor facts, the
//! transitions that flip them (each a condition on the state an action
//! starts from), and the acceptance conjuncts checked on the last state.

use vstd::prelude::*;
use crate::binding::strs;
use crate::dnf::{bind_view, copy_num, num_view, CompOp, Formula, NumView};
use crate::text::{dec, numbered};
use crate::types::{Sym, Term};

verus! {

/// A formula as a value.
pub enum FormulaView {
    True,
    False,
    Atom(Seq<char>, Seq<Term>),
    Comp(CompOp, NumView, NumView),
    Eq(Term, Term),
    Not(Box<FormulaView>),
    And(Seq<FormulaView>),
    Or(Seq<FormulaView>),
    Forall(Seq<(Seq<char>, Seq<char>)>, Box<FormulaView>),
    Exists(Seq<(Seq<char>, Seq<char>)>, Box<FormulaView>),
    Pref(Option<Seq<char>>, Box<FormulaView>),
}

pub open spec fn fview(f: Formula) -> FormulaView
    decreases f, 0int,
{
    match f {
        Formula::True => FormulaView::True,
        Formula::False => FormulaView::False,
        Formula::Atom(p, a) => FormulaView::Atom(p@, a@),
        Formula::Comp(op, l, r) => FormulaView::Comp(op, num_view(l), num_view(r)),
        Formula::Eq(x, y) => FormulaView::Eq(x, y),
        Formula::Not(g) => FormulaView::Not(Box::new(fview(*g))),
        Formula::And(fs) => FormulaView::And(fviews(fs@)),
        Formula::Or(fs) => FormulaView::Or(fviews(fs@)),
        Formula::Forall(vs, g) => FormulaView::Forall(bind_view(vs@), Box::new(fview(*g))),
        Formula::Exists(vs, g) => FormulaView::Exists(bind_view(vs@), Box::new(fview(*g))),
        Formula::Pref(n, g) => FormulaView::Pref(
            match n {
                Some(s) => Some(s@),
                None => None,
            },
            Box::new(fview(*g)),
        ),
    }
}

pub open spec fn fviews(fs: Seq<Formula>) -> Seq<FormulaView>
    decreases fs, 1int,
{
    if fs.len() == 0 {
        seq![]
    } else {
        fviews(fs.drop_last()).push(fview(fs.last()))
    }
}

fn copy_term(t: &Term) -> (r: Term)
    ensures
        r == *t,
{
    match t {
        Term::Var(s) => Term::Var(s.clone()),
        Term::Const(s) => Term::Const(s.clone()),
    }
}

fn copy_term_list(a: &Vec<Term>) -> (r: Vec<Term>)
    ensures
        r@ == a@,
{
    let mut r: Vec<Term> = Vec::new();
    let mut i: usize = 0;
    while i < a.len()
        invariant
            i <= a.len(),
            r@ == a@.take(i as int),
        decreases a.len() - i,
    {
        r.push(copy_term(&a[i]));
        assert(a@.take(i + 1) =~= a@.take(i as int).push(a@[i as int]));
        i = i + 1;
    }
    assert(a@.take(i as int) =~= a@);
    r
}

fn copy_pairs(v: &Vec<(Sym, Sym)>) -> (r: Vec<(Sym, Sym)>)
    ensures
        bind_view(r@) == bind_view(v@),
{
    let mut r: Vec<(Sym, Sym)> = Vec::new();
    let mut i: usize = 0;
    while i < v.len()
        invariant
            i <= v.len(),
            r.len() == i,
            forall|k: int| 0 <= k < i ==> (#[trigger] r@[k]).0@ == v@[k].0@ && r@[k].1@ == v@[k].1@,
        decreases v.len() - i,
    {
        r.push((v[i].0.clone(), v[i].1.clone()));
        i = i + 1;
    }
    assert(bind_view(r@) =~= bind_view(v@));
    r
}

/// A copy of `f`.
pub fn copy_formula(f: &Formula) -> (r: Formula)
    ensures
        fview(r) == fview(*f),
    decreases *f, 0int,
{
    match f {
        Formula::True => Formula::True,
        Formula::False => Formula::False,
        Formula::Atom(p, a) => Formula::Atom(p.clone(), copy_term_list(a)),
        Formula::Comp(op, l, r) => Formula::Comp(*op, copy_num(l), copy_num(r)),
        Formula::Eq(x, y) => Formula::Eq(copy_term(x), copy_term(y)),
        Formula::Not(g) => {
            proof {
                assert(decreases_to!(*f => (*f)->Not_0));
            }
            Formula::Not(Box::new(copy_formula(g)))
        },
        Formula::And(fs) => {
            proof {
                assert(decreases_to!(*f => (*f)->And_0));
                assert(decreases_to!((*f)->And_0 => (*f)->And_0@));
            }
            Formula::And(copy_formulas(fs))
        },
        Formula::Or(fs) => {
            proof {
                assert(decreases_to!(*f => (*f)->Or_0));
                assert(decreases_to!((*f)->Or_0 => (*f)->Or_0@));
            }
            Formula::Or(copy_formulas(fs))
        },
        Formula::Forall(vs, g) => {
            proof {
                assert(decreases_to!(*f => (*f)->Forall_1));
            }
            Formula::Forall(copy_pairs(vs), Box::new(copy_formula(g)))
        },
        Formula::Exists(vs, g) => {
            proof {
                assert(decreases_to!(*f => (*f)->Exists_1));
            }
            Formula::Exists(copy_pairs(vs), Box::new(copy_formula(g)))
        },
        Formula::Pref(n, g) => {
            proof {
                assert(decreases_to!(*f => (*f)->Pref_1));
            }
            let n2 = match n {
                Some(s) => Some(s.clone()),
                None => None,
            };
            Formula::Pref(n2, Box::new(copy_formula(g)))
        },
    }
}

fn copy_formulas(fs: &Vec<Formula>) -> (r: Vec<Formula>)
    ensures
        fviews(r@) == fviews(fs@),
    decreases fs@, 1int,
{
    let mut r: Vec<Formula> = Vec::new();
    let mut i: usize = 0;
    assert(fs@.take(0) =~= Seq::<Formula>::empty());
    assert(r@ =~= Seq::<Formula>::empty());
    while i < fs.len()
        invariant
            i <= fs.len(),
            fviews(r@) == fviews(fs@.take(i as int)),
        decreases fs.len() - i,
    {
        proof {
            assert(decreases_to!(fs@ => fs@[i as int]));
        }
        let c = copy_formula(&fs[i]);
        let ghost r0 = r@;
        r.push(c);
        proof {
            assert(r@.drop_last() =~= r0);
            let pre = fs@.take(i + 1);
            assert(pre.drop_last() =~= fs@.take(i as int));
            assert(pre.last() == fs@[i as int]);
        }
        i = i + 1;
    }
    assert(fs@.take(i as int) =~= fs@);
    r
}


/// An untimed modal trajectory constraint over ground formulas.
#[derive(Debug, PartialEq, Eq)]
pub enum Traj {
    /// The formula holds in every state.
    Always(Formula),
    /// The formula holds in some state.
    Sometime(Formula),
    /// The formula becomes true at most once (holds over one episode).
    AtMostOnce(Formula),
    /// Whenever the first holds, the second holds then or later.
    SometimeAfter(Formula, Formula),
    /// Whenever the first holds, the second held strictly earlier.
    SometimeBefore(Formula, Formula),
    /// The formula holds in the last state.
    AtEnd(Formula),
}

/// A monitor transition: when `cond` holds in the state an action starts
/// from, the action adds the facts of `add` and deletes those of `del`.
#[derive(Debug, PartialEq, Eq)]
pub struct Transition {
    pub cond: Formula,
    pub add: Vec<Sym>,
    pub del: Vec<Sym>,
}

/// One constraint's monitor: its 0-ary facts with their initial truth,
/// its transitions, and its acceptance conjuncts on the last state.
#[derive(Debug, PartialEq, Eq)]
pub struct Monitor {
    pub facts: Vec<(Sym, bool)>,
    pub transitions: Vec<Transition>,
    pub acceptance: Vec<Formula>,
}

pub type TransView = (FormulaView, Seq<Seq<char>>, Seq<Seq<char>>);

pub type MonitorView = (Seq<(Seq<char>, bool)>, Seq<TransView>, Seq<FormulaView>);

pub open spec fn tview(t: Transition) -> TransView {
    (fview(t.cond), strs(t.add@), strs(t.del@))
}

pub open spec fn mview(m: Monitor) -> MonitorView {
    (
        m.facts@.map_values(|d: (Sym, bool)| (d.0@, d.1)),
        m.transitions@.map_values(|t: Transition| tview(t)),
        fviews(m.acceptance@),
    )
}

/// The name of monitor `i`'s fact with `suffix`.
pub open spec fn mfact(i: nat, suffix: Seq<char>) -> Seq<char> {
    "TRAJ"@ + dec(i) + suffix
}

pub open spec fn fact0(n: Seq<char>) -> FormulaView {
    FormulaView::Atom(n, seq![])
}

pub open spec fn fnot(f: FormulaView) -> FormulaView {
    FormulaView::Not(Box::new(f))
}

/// The monitor of constraint `t` numbered `i`, where `a0` and `b0` say
/// whether its first and second formula hold in the initial state.
pub open spec fn monitor_of(i: nat, t: Traj, a0: bool, b0: bool) -> MonitorView {
    match t {
        Traj::Always(f) => {
            let viol = mfact(i, "-VIOL"@);
            (seq![(viol, !a0)], seq![(fnot(fview(f)), seq![viol], seq![])], seq![fnot(fact0(viol)), fview(f)])
        },
        Traj::Sometime(f) => {
            let seen = mfact(i, "-SEEN"@);
            (
                seq![(seen, a0)],
                seq![(fview(f), seq![seen], seq![])],
                seq![FormulaView::Or(seq![fact0(seen), fview(f)])],
            )
        },
        Traj::AtMostOnce(f) => {
            let hold = mfact(i, "-HOLD"@);
            let seen = mfact(i, "-SEEN"@);
            let viol = mfact(i, "-VIOL"@);
            let rising = FormulaView::And(seq![fview(f), fnot(fact0(hold)), fact0(seen)]);
            (
                seq![(hold, a0), (seen, a0), (viol, false)],
                seq![
                    (rising, seq![viol], seq![]),
                    (FormulaView::And(seq![fview(f), fnot(fact0(hold))]), seq![seen, hold], seq![]),
                    (FormulaView::And(seq![fnot(fview(f)), fact0(hold)]), seq![], seq![hold]),
                ],
                seq![fnot(fact0(viol)), fnot(rising)],
            )
        },
        Traj::SometimeAfter(a, b) => {
            let pend = mfact(i, "-PEND"@);
            (
                seq![(pend, a0 && !b0)],
                seq![
                    (fview(b), seq![], seq![pend]),
                    (FormulaView::And(seq![fview(a), fnot(fview(b))]), seq![pend], seq![]),
                ],
                seq![FormulaView::Or(seq![fview(b), FormulaView::And(seq![fnot(fact0(pend)), fnot(fview(a))])])],
            )
        },
        Traj::SometimeBefore(a, b) => {
            let safe = mfact(i, "-SAFE"@);
            let viol = mfact(i, "-VIOL"@);
            (
                seq![(safe, b0), (viol, a0)],
                seq![
                    (FormulaView::And(seq![fview(a), fnot(fact0(safe))]), seq![viol], seq![]),
                    (fview(b), seq![safe], seq![]),
                ],
                seq![fnot(fact0(viol)), FormulaView::Or(seq![fnot(fview(a)), fact0(safe)])],
            )
        },
        Traj::AtEnd(f) => (seq![], seq![], seq![fview(f)]),
    }
}

pub(crate) proof fn lemma_fviews1(x: Formula)
    ensures
        fviews(seq![x]) == seq![fview(x)],
{
    assert(seq![x].drop_last() =~= Seq::<Formula>::empty());
    assert(fviews(Seq::<Formula>::empty()) == Seq::<FormulaView>::empty());
    assert(fviews(seq![x]) == fviews(Seq::<Formula>::empty()).push(fview(x)));
    assert(fviews(seq![x]) =~= seq![fview(x)]);
}

pub(crate) proof fn lemma_fviews2(x: Formula, y: Formula)
    ensures
        fviews(seq![x, y]) == seq![fview(x), fview(y)],
{
    assert(seq![x, y].drop_last() =~= seq![x]);
    lemma_fviews1(x);
    assert(fviews(seq![x, y]) =~= seq![fview(x), fview(y)]);
}

proof fn lemma_fviews3(x: Formula, y: Formula, z: Formula)
    ensures
        fviews(seq![x, y, z]) == seq![fview(x), fview(y), fview(z)],
{
    assert(seq![x, y, z].drop_last() =~= seq![x, y]);
    lemma_fviews2(x, y);
    assert(fviews(seq![x, y, z]) =~= seq![fview(x), fview(y), fview(z)]);
}

pub(crate) fn fact_atom(n: &Sym) -> (r: Formula)
    ensures
        fview(r) == fact0(n@),
{
    let r = Formula::Atom(n.clone(), Vec::new());
    assert(fview(r) == FormulaView::Atom(n@, Seq::<Term>::empty()));
    r
}

pub(crate) fn not_of(f: Formula) -> (r: Formula)
    ensures
        fview(r) == fnot(fview(f)),
{
    Formula::Not(Box::new(f))
}

pub(crate) fn and2(x: Formula, y: Formula) -> (r: Formula)
    ensures
        fview(r) == FormulaView::And(seq![fview(x), fview(y)]),
{
    let v = vec![x, y];
    proof {
        assert(v@ =~= seq![x, y]);
        lemma_fviews2(x, y);
    }
    Formula::And(v)
}

fn or2(x: Formula, y: Formula) -> (r: Formula)
    ensures
        fview(r) == FormulaView::Or(seq![fview(x), fview(y)]),
{
    let v = vec![x, y];
    proof {
        assert(v@ =~= seq![x, y]);
        lemma_fviews2(x, y);
    }
    Formula::Or(v)
}

fn and3(x: Formula, y: Formula, z: Formula) -> (r: Formula)
    ensures
        fview(r) == FormulaView::And(seq![fview(x), fview(y), fview(z)]),
{
    let v = vec![x, y, z];
    proof {
        assert(v@ =~= seq![x, y, z]);
        lemma_fviews3(x, y, z);
    }
    Formula::And(v)
}

fn names(n: &Sym) -> (r: Vec<Sym>)
    ensures
        strs(r@) == seq![n@],
{
    let r = vec![n.clone()];
    assert(strs(r@) =~= seq![n@]);
    r
}

fn trans(cond: Formula, add: Vec<Sym>, del: Vec<Sym>) -> (t: Transition)
    ensures
        tview(t) == (fview(cond), strs(add@), strs(del@)),
{
    Transition { cond, add, del }
}

/// The monitor of constraint `t`, numbered `i`, with `a0` and `b0` the
/// initial truth of its first and second formula.
pub fn emit_monitor(i: usize, t: &Traj, a0: bool, b0: bool) -> (m: Monitor)
    ensures
        mview(m) == monitor_of(i as nat, *t, a0, b0),
{
    let none: Vec<Sym> = Vec::new();
    assert(strs(none@) =~= Seq::<Seq<char>>::empty());
    match t {
        Traj::Always(f) => {
            let viol = numbered("TRAJ", i, "-VIOL");
            let t1 = trans(not_of(copy_formula(f)), names(&viol), none);
            let acc = vec![not_of(fact_atom(&viol)), copy_formula(f)];
            let facts = vec![(viol, !a0)];
            let ts = vec![t1];
            let m = Monitor { facts, transitions: ts, acceptance: acc };
            proof {
                assert(mview(m).0 =~= monitor_of(i as nat, *t, a0, b0).0);
                assert(mview(m).1 =~= monitor_of(i as nat, *t, a0, b0).1);
                lemma_fviews2(m.acceptance@[0], m.acceptance@[1]);
                assert(m.acceptance@ =~= seq![m.acceptance@[0], m.acceptance@[1]]);
            }
            m
        },
        Traj::Sometime(f) => {
            let seen = numbered("TRAJ", i, "-SEEN");
            let t1 = trans(copy_formula(f), names(&seen), none);
            let acc = vec![or2(fact_atom(&seen), copy_formula(f))];
            let facts = vec![(seen, a0)];
            let ts = vec![t1];
            let m = Monitor { facts, transitions: ts, acceptance: acc };
            proof {
                assert(mview(m).0 =~= monitor_of(i as nat, *t, a0, b0).0);
                assert(mview(m).1 =~= monitor_of(i as nat, *t, a0, b0).1);
                lemma_fviews1(m.acceptance@[0]);
                assert(m.acceptance@ =~= seq![m.acceptance@[0]]);
            }
            m
        },
        Traj::AtMostOnce(f) => {
            let hold = numbered("TRAJ", i, "-HOLD");
            let seen = numbered("TRAJ", i, "-SEEN");
            let viol = numbered("TRAJ", i, "-VIOL");
            let rise1 = and3(copy_formula(f), not_of(fact_atom(&hold)), fact_atom(&seen));
            let rise2 = and3(copy_formula(f), not_of(fact_atom(&hold)), fact_atom(&seen));
            let t1 = trans(rise1, names(&viol), Vec::new());
            let mut both = names(&seen);
            let h2 = hold.clone();
            let ghost both0 = both@;
            both.push(h2);
            proof {
                assert(strs(both@) =~= strs(both0).push(h2@));
            }
            let t2 = trans(and2(copy_formula(f), not_of(fact_atom(&hold))), both, Vec::new());
            let t3 = trans(and2(not_of(copy_formula(f)), fact_atom(&hold)), Vec::new(), names(&hold));
            let acc = vec![not_of(fact_atom(&viol)), not_of(rise2)];
            let facts = vec![(hold, a0), (seen, a0), (viol, false)];
            let ts = vec![t1, t2, t3];
            let m = Monitor { facts, transitions: ts, acceptance: acc };
            proof {
                assert(strs(Seq::<Sym>::empty()) =~= Seq::<Seq<char>>::empty());
                assert(strs(m.transitions@[1].add@) =~= seq![mfact(i as nat, "-SEEN"@), mfact(i as nat, "-HOLD"@)]);
                assert(mview(m).0 =~= monitor_of(i as nat, *t, a0, b0).0);
                assert(mview(m).1 =~= monitor_of(i as nat, *t, a0, b0).1);
                lemma_fviews2(m.acceptance@[0], m.acceptance@[1]);
                assert(m.acceptance@ =~= seq![m.acceptance@[0], m.acceptance@[1]]);
            }
            m
        },
        Traj::SometimeAfter(a, b) => {
            let pend = numbered("TRAJ", i, "-PEND");
            let t1 = trans(copy_formula(b), Vec::new(), names(&pend));
            let t2 = trans(and2(copy_formula(a), not_of(copy_formula(b))), names(&pend), Vec::new());
            let acc = vec![or2(copy_formula(b), and2(not_of(fact_atom(&pend)), not_of(copy_formula(a))))];
            let facts = vec![(pend, a0 && !b0)];
            let ts = vec![t1, t2];
            let m = Monitor { facts, transitions: ts, acceptance: acc };
            proof {
                assert(strs(Seq::<Sym>::empty()) =~= Seq::<Seq<char>>::empty());
                assert(mview(m).0 =~= monitor_of(i as nat, *t, a0, b0).0);
                assert(mview(m).1 =~= monitor_of(i as nat, *t, a0, b0).1);
                lemma_fviews1(m.acceptance@[0]);
                assert(m.acceptance@ =~= seq![m.acceptance@[0]]);
            }
            m
        },
        Traj::SometimeBefore(a, b) => {
            let safe = numbered("TRAJ", i, "-SAFE");
            let viol = numbered("TRAJ", i, "-VIOL");
            let t1 = trans(and2(copy_formula(a), not_of(fact_atom(&safe))), names(&viol), Vec::new());
            let t2 = trans(copy_formula(b), names(&safe), Vec::new());
            let acc = vec![not_of(fact_atom(&viol)), or2(not_of(copy_formula(a)), fact_atom(&safe))];
            let facts = vec![(safe, b0), (viol, a0)];
            let ts = vec![t1, t2];
            let m = Monitor { facts, transitions: ts, acceptance: acc };
            proof {
                assert(strs(Seq::<Sym>::empty()) =~= Seq::<Seq<char>>::empty());
                assert(mview(m).0 =~= monitor_of(i as nat, *t, a0, b0).0);
                assert(mview(m).1 =~= monitor_of(i as nat, *t, a0, b0).1);
                lemma_fviews2(m.acceptance@[0], m.acceptance@[1]);
                assert(m.acceptance@ =~= seq![m.acceptance@[0], m.acceptance@[1]]);
            }
            m
        },
        Traj::AtEnd(f) => {
            let acc = vec![copy_formula(f)];
            let m = Monitor { facts: Vec::new(), transitions: Vec::new(), acceptance: acc };
            proof {
                assert(mview(m).0 =~= monitor_of(i as nat, *t, a0, b0).0);
                assert(mview(m).1 =~= monitor_of(i as nat, *t, a0, b0).1);
                lemma_fviews1(m.acceptance@[0]);
                assert(m.acceptance@ =~= seq![m.acceptance@[0]]);
            }
            m
        },
    }
}

/// Whether `f` holds when `v` judges its leaves (atoms, comparisons,
/// equalities and quantified or preference subformulas).
pub open spec fn holds(f: FormulaView, v: spec_fn(FormulaView) -> bool) -> bool
    decreases f, 0int,
{
    match f {
        FormulaView::True => true,
        FormulaView::False => false,
        FormulaView::Not(g) => !holds(*g, v),
        FormulaView::And(fs) => all_hold(fs, v),
        FormulaView::Or(fs) => any_holds(fs, v),
        _ => v(f),
    }
}

pub open spec fn all_hold(fs: Seq<FormulaView>, v: spec_fn(FormulaView) -> bool) -> bool
    decreases fs, 1int,
{
    fs.len() == 0 || (all_hold(fs.drop_last(), v) && holds(fs.last(), v))
}

pub open spec fn any_holds(fs: Seq<FormulaView>, v: spec_fn(FormulaView) -> bool) -> bool
    decreases fs, 1int,
{
    fs.len() > 0 && (any_holds(fs.drop_last(), v) || holds(fs.last(), v))
}

proof fn lemma_all_hold2(x: FormulaView, y: FormulaView, v: spec_fn(FormulaView) -> bool)
    ensures
        all_hold(seq![x, y], v) == (holds(x, v) && holds(y, v)),
{
    assert(seq![x, y].drop_last() =~= seq![x]);
    assert(seq![x].drop_last() =~= Seq::<FormulaView>::empty());
    assert(all_hold(Seq::<FormulaView>::empty(), v));
    assert(all_hold(seq![x], v) == holds(x, v));
    assert(seq![x, y].last() == y);
}

proof fn lemma_suffixes_differ(i: nat, s1: Seq<char>, s2: Seq<char>, k: int)
    requires
        0 <= k < s1.len(),
        s1.len() == s2.len(),
        s1[k] != s2[k],
    ensures
        mfact(i, s1) != mfact(i, s2),
{
    let p = "TRAJ"@ + dec(i);
    assert(mfact(i, s1)[p.len() + k] == s1[k]);
    assert(mfact(i, s2)[p.len() + k] == s2[k]);
}

/// No state fires one transition of a monitor that adds a fact together
/// with another that deletes it: the transitions on each monitor fact are
/// mutually exclusive, whatever the constraint's formulas say.
pub proof fn law_monitor_never_sets_and_clears_one_fact(
    i: nat,
    t: Traj,
    a0: bool,
    b0: bool,
    v: spec_fn(FormulaView) -> bool,
    j1: int,
    j2: int,
    x: Seq<char>,
)
    requires
        0 <= j1 < monitor_of(i, t, a0, b0).1.len(),
        0 <= j2 < monitor_of(i, t, a0, b0).1.len(),
        monitor_of(i, t, a0, b0).1[j1].1.contains(x),
        monitor_of(i, t, a0, b0).1[j2].2.contains(x),
    ensures
        !(holds(monitor_of(i, t, a0, b0).1[j1].0, v) && holds(monitor_of(i, t, a0, b0).1[j2].0, v)),
{
    let ts = monitor_of(i, t, a0, b0).1;
    match t {
        Traj::AtMostOnce(f) => {
            let hold = mfact(i, "-HOLD"@);
            let seen = mfact(i, "-SEEN"@);
            let viol = mfact(i, "-VIOL"@);
            reveal_strlit("-HOLD");
            reveal_strlit("-SEEN");
            reveal_strlit("-VIOL");
            lemma_suffixes_differ(i, "-VIOL"@, "-HOLD"@, 1);
            lemma_suffixes_differ(i, "-SEEN"@, "-HOLD"@, 1);
            assert(j2 == 2);
            assert(ts[2].2 =~= seq![hold]);
            assert(x == hold);
            assert(j1 == 1) by {
                if j1 == 0 {
                    assert(ts[0].1 =~= seq![viol]);
                }
                if j1 == 2 {
                    assert(ts[2].1 =~= Seq::<Seq<char>>::empty());
                }
            }
            lemma_all_hold2(fview(f), fnot(fact0(hold)), v);
            lemma_all_hold2(fnot(fview(f)), fact0(hold), v);
        },
        Traj::SometimeAfter(a, b) => {
            let pend = mfact(i, "-PEND"@);
            assert(j2 == 0) by {
                if j2 == 1 {
                    assert(ts[1].2 =~= Seq::<Seq<char>>::empty());
                }
            }
            assert(j1 == 1) by {
                if j1 == 0 {
                    assert(ts[0].1 =~= Seq::<Seq<char>>::empty());
                }
            }
            lemma_all_hold2(fview(a), fnot(fview(b)), v);
        },
        Traj::Always(f) => {
            assert(ts[0].2 =~= Seq::<Seq<char>>::empty());
        },
        Traj::Sometime(f) => {
            assert(ts[0].2 =~= Seq::<Seq<char>>::empty());
        },
        Traj::SometimeBefore(a, b) => {
            assert(ts[0].2 =~= Seq::<Seq<char>>::empty());
            assert(ts[1].2 =~= Seq::<Seq<char>>::empty());
        },
        Traj::AtEnd(f) => {},
    }
}

/// A constraint instance after expansion: its operator, and whether its
/// first and second formula hold in the initial state.
pub struct Instance {
    pub traj: Traj,
    pub a0: bool,
    pub b0: bool,
}

/// The monitors of a set of constraint instances, put together.
pub struct Emitted {
    /// Every monitor fact with its initial truth, monitor by monitor.
    pub facts: Vec<(Sym, bool)>,
    /// Every transition, monitor by monitor.
    pub transitions: Vec<Transition>,
    /// Each hard instance's acceptance conjuncts.
    pub hard_acc: Vec<Vec<Formula>>,
    /// One goal preference per soft constraint: accepted when all of its
    /// members are.
    pub prefs: Vec<Formula>,
}

/// The soft constraints' members, one constraint after another.
pub open spec fn flat(soft: Seq<(Sym, Vec<Instance>)>) -> Seq<Instance>
    decreases soft.len(),
{
    if soft.len() == 0 {
        seq![]
    } else {
        flat(soft.drop_last()) + soft.last().1@
    }
}

/// Every instance in monitor order: the hard ones, then the soft members.
pub open spec fn all_insts(hard: Seq<Instance>, soft: Seq<(Sym, Vec<Instance>)>) -> Seq<Instance> {
    hard + flat(soft)
}

/// The monitors of `insts`, numbered by position.
pub open spec fn mons(insts: Seq<Instance>) -> Seq<MonitorView> {
    Seq::new(insts.len(), |k: int| monitor_of(k as nat, insts[k].traj, insts[k].a0, insts[k].b0))
}

pub open spec fn cat_facts(ms: Seq<MonitorView>) -> Seq<(Seq<char>, bool)>
    decreases ms.len(),
{
    if ms.len() == 0 {
        seq![]
    } else {
        cat_facts(ms.drop_last()) + ms.last().0
    }
}

pub open spec fn cat_trans(ms: Seq<MonitorView>) -> Seq<TransView>
    decreases ms.len(),
{
    if ms.len() == 0 {
        seq![]
    } else {
        cat_trans(ms.drop_last()) + ms.last().1
    }
}

pub open spec fn cat_acc(ms: Seq<MonitorView>) -> Seq<FormulaView>
    decreases ms.len(),
{
    if ms.len() == 0 {
        seq![]
    } else {
        cat_acc(ms.drop_last()) + ms.last().2
    }
}

/// One formula standing for the conjuncts `acc`: `true` for none, the
/// conjunct itself for one.
pub open spec fn conj_of(acc: Seq<FormulaView>) -> FormulaView {
    if acc.len() == 0 {
        FormulaView::True
    } else if acc.len() == 1 {
        acc[0]
    } else {
        FormulaView::And(acc)
    }
}

/// Where soft constraint `g`'s members start in monitor order.
pub open spec fn soft_start(hard: Seq<Instance>, soft: Seq<(Sym, Vec<Instance>)>, g: int) -> int {
    (hard.len() + flat(soft.take(g)).len()) as int
}

pub open spec fn fact_views(v: Seq<(Sym, bool)>) -> Seq<(Seq<char>, bool)> {
    v.map_values(|d: (Sym, bool)| (d.0@, d.1))
}

pub open spec fn trans_views(v: Seq<Transition>) -> Seq<TransView> {
    v.map_values(|t: Transition| tview(t))
}

proof fn lemma_flat_prefix(soft: Seq<(Sym, Vec<Instance>)>, g: int)
    requires
        0 <= g <= soft.len(),
    ensures
        flat(soft.take(g)).len() <= flat(soft).len(),
        forall|i: int| 0 <= i < flat(soft.take(g)).len() ==> #[trigger] flat(soft)[i] == flat(soft.take(g))[i],
    decreases soft.len(),
{
    if g == soft.len() {
        assert(soft.take(g) =~= soft);
    } else {
        assert(soft.drop_last().take(g) =~= soft.take(g));
        lemma_flat_prefix(soft.drop_last(), g);
    }
}

proof fn lemma_flat_step(soft: Seq<(Sym, Vec<Instance>)>, g: int)
    requires
        0 <= g < soft.len(),
    ensures
        flat(soft.take(g + 1)) == flat(soft.take(g)) + soft[g].1@,
        flat(soft.take(g + 1)).len() <= flat(soft).len(),
        forall|j: int| 0 <= j < soft[g].1.len() ==> #[trigger] flat(soft)[flat(soft.take(g)).len() + j] == soft[g].1@[j],
{
    assert(soft.take(g + 1).drop_last() =~= soft.take(g));
    assert(soft.take(g + 1).last() == soft[g]);
    lemma_flat_prefix(soft, g + 1);
    assert forall|j: int| 0 <= j < soft[g].1.len() implies #[trigger] flat(soft)[flat(soft.take(g)).len() + j] == soft[g].1@[j] by {
        let i = flat(soft.take(g)).len() + j;
        assert(flat(soft.take(g + 1))[i] == soft[g].1@[j]);
    }
}

proof fn lemma_cat_step(ms: Seq<MonitorView>, lo: int, k: int)
    requires
        0 <= lo <= k < ms.len(),
    ensures
        cat_facts(ms.take(k + 1)) == cat_facts(ms.take(k)) + ms[k].0,
        cat_trans(ms.take(k + 1)) == cat_trans(ms.take(k)) + ms[k].1,
        cat_acc(ms.subrange(lo, k + 1)) == cat_acc(ms.subrange(lo, k)) + ms[k].2,
{
    assert(ms.take(k + 1).drop_last() =~= ms.take(k));
    assert(ms.take(k + 1).last() == ms[k]);
    assert(ms.subrange(lo, k + 1).drop_last() =~= ms.subrange(lo, k));
    assert(ms.subrange(lo, k + 1).last() == ms[k]);
}

/// The monitors of the hard instances, then of the soft constraints'
/// members, numbered in that order, put together.
pub fn emit_all(hard: &Vec<Instance>, soft: &Vec<(Sym, Vec<Instance>)>) -> (e: Emitted)
    requires
        all_insts(hard@, soft@).len() < usize::MAX,
    ensures
        ({
            let ms = mons(all_insts(hard@, soft@));
            &&& fact_views(e.facts@) == cat_facts(ms)
            &&& trans_views(e.transitions@) == cat_trans(ms)
            &&& e.hard_acc.len() == hard.len()
            &&& forall|k: int| 0 <= k < hard.len() ==> fviews((#[trigger] e.hard_acc@[k])@) == ms[k].2
            &&& e.prefs.len() == soft.len()
            &&& forall|g: int|
                0 <= g < soft.len() ==> fview(#[trigger] e.prefs@[g]) == FormulaView::Pref(
                    Some(soft@[g].0@),
                    Box::new(
                        conj_of(
                            cat_acc(
                                ms.subrange(soft_start(hard@, soft@, g), soft_start(hard@, soft@, g) + soft@[g].1.len()),
                            ),
                        ),
                    ),
                )
        }),
{
    let ghost insts = all_insts(hard@, soft@);
    let ghost ms = mons(insts);
    let mut facts: Vec<(Sym, bool)> = Vec::new();
    let mut transitions: Vec<Transition> = Vec::new();
    let mut hard_acc: Vec<Vec<Formula>> = Vec::new();
    let mut prefs: Vec<Formula> = Vec::new();
    let mut idx: usize = 0;
    proof {
        assert(ms.take(0) =~= Seq::<MonitorView>::empty());
        assert(fact_views(facts@) =~= Seq::<(Seq<char>, bool)>::empty());
        assert(trans_views(transitions@) =~= Seq::<TransView>::empty());
    }
    while idx < hard.len()
        invariant
            idx <= hard.len(),
            insts == all_insts(hard@, soft@),
            ms == mons(insts),
            insts.len() < usize::MAX,
            fact_views(facts@) == cat_facts(ms.take(idx as int)),
            trans_views(transitions@) == cat_trans(ms.take(idx as int)),
            hard_acc.len() == idx,
            forall|k: int| 0 <= k < idx ==> fviews((#[trigger] hard_acc@[k])@) == ms[k].2,
        decreases hard.len() - idx,
    {
        let inst = &hard[idx];
        let mut m = emit_monitor(idx, &inst.traj, inst.a0, inst.b0);
        proof {
            assert(insts[idx as int] == hard@[idx as int]);
            assert(ms[idx as int] == mview(m));
            lemma_cat_step(ms, 0, idx as int);
        }
        let ghost f0 = facts@;
        let ghost t0 = transitions@;
        let ghost mf = m.facts@;
        let ghost mt = m.transitions@;
        proof {
            assert(fact_views(mf) =~= mview(m).0);
            assert(trans_views(mt) =~= mview(m).1);
        }
        facts.append(&mut m.facts);
        transitions.append(&mut m.transitions);
        hard_acc.push(m.acceptance);
        proof {
            assert(fact_views(facts@) =~= fact_views(f0) + fact_views(mf));
            assert(trans_views(transitions@) =~= trans_views(t0) + trans_views(mt));
        }
        idx = idx + 1;
    }
    let mut g: usize = 0;
    proof {
        assert(soft@.take(0) =~= Seq::<(Sym, Vec<Instance>)>::empty());
    }
    while g < soft.len()
        invariant
            g <= soft.len(),
            insts == all_insts(hard@, soft@),
            ms == mons(insts),
            insts.len() < usize::MAX,
            idx == soft_start(hard@, soft@, g as int),
            idx <= insts.len(),
            fact_views(facts@) == cat_facts(ms.take(idx as int)),
            trans_views(transitions@) == cat_trans(ms.take(idx as int)),
            hard_acc.len() == hard.len(),
            forall|k: int| 0 <= k < hard.len() ==> fviews((#[trigger] hard_acc@[k])@) == ms[k].2,
            prefs.len() == g,
            forall|h: int|
                0 <= h < g ==> fview(#[trigger] prefs@[h]) == FormulaView::Pref(
                    Some(soft@[h].0@),
                    Box::new(
                        conj_of(
                            cat_acc(
                                ms.subrange(soft_start(hard@, soft@, h), soft_start(hard@, soft@, h) + soft@[h].1.len()),
                            ),
                        ),
                    ),
                ),
        decreases soft.len() - g,
    {
        let members = &soft[g].1;
        let ghost lo = idx as int;
        proof {
            lemma_flat_step(soft@, g as int);
            assert forall|i: int| 0 <= i < members.len() implies #[trigger] insts[lo + i] == members@[i] by {
                assert(flat(soft@)[flat(soft@.take(g as int)).len() + i] == soft@[g as int].1@[i]);
            }
        }
        let mut acc: Vec<Formula> = Vec::new();
        let mut j: usize = 0;
        proof {
            assert(ms.subrange(lo, lo) =~= Seq::<MonitorView>::empty());
            assert(fviews(acc@) == Seq::<FormulaView>::empty());
        }
        while j < members.len()
            invariant
                j <= members.len(),
                *members == soft@[g as int].1,
                g < soft.len(),
                insts == all_insts(hard@, soft@),
                ms == mons(insts),
                insts.len() < usize::MAX,
                lo == soft_start(hard@, soft@, g as int),
                idx == lo + j,
                lo + members.len() <= insts.len(),
                forall|i: int| 0 <= i < members.len() ==> #[trigger] insts[lo + i] == members@[i],
                fact_views(facts@) == cat_facts(ms.take(idx as int)),
                trans_views(transitions@) == cat_trans(ms.take(idx as int)),
                fviews(acc@) == cat_acc(ms.subrange(lo, idx as int)),
            decreases members.len() - j,
        {
            let inst = &members[j];
            let mut m = emit_monitor(idx, &inst.traj, inst.a0, inst.b0);
            proof {
                assert(insts[lo + j] == members@[j as int]);
                assert(ms[idx as int] == mview(m));
                lemma_cat_step(ms, lo, idx as int);
            }
            let ghost f0 = facts@;
            let ghost t0 = transitions@;
            let ghost a0 = acc@;
            let ghost mf = m.facts@;
            let ghost mt = m.transitions@;
            let ghost ma = m.acceptance@;
            proof {
                assert(fact_views(mf) =~= mview(m).0);
                assert(trans_views(mt) =~= mview(m).1);
                assert(fviews(ma) == mview(m).2);
            }
            facts.append(&mut m.facts);
            transitions.append(&mut m.transitions);
            acc.append(&mut m.acceptance);
            proof {
                assert(fact_views(facts@) =~= fact_views(f0) + fact_views(mf));
                assert(trans_views(transitions@) =~= trans_views(t0) + trans_views(mt));
                lemma_fviews_cat(a0, ma);
                assert(acc@ == a0 + ma);
            }
            idx = idx + 1;
            j = j + 1;
        }
        let ghost accv = fviews(acc@);
        proof {
            lemma_fviews_len(acc@);
        }
        let body = if acc.len() == 0 {
            Formula::True
        } else if acc.len() == 1 {
            let ghost before = acc@;
            let x = acc.pop().unwrap();
            proof {
                lemma_fviews1(x);
                assert(before =~= seq![x]);
            }
            x
        } else {
            Formula::And(acc)
        };
        assert(fview(body) == conj_of(accv));
        prefs.push(Formula::Pref(Some(soft[g].0.clone()), Box::new(body)));
        proof {
            assert(soft_start(hard@, soft@, g + 1) == lo + members.len());
        }
        g = g + 1;
    }
    proof {
        assert(soft@.take(soft.len() as int) =~= soft@);
        assert(ms.take(idx as int) =~= ms);
    }
    Emitted { facts, transitions, hard_acc, prefs }
}

pub(crate) proof fn lemma_fviews_index(a: Seq<Formula>)
    ensures
        fviews(a).len() == a.len(),
        forall|i: int| 0 <= i < a.len() ==> #[trigger] fviews(a)[i] == fview(a[i]),
    decreases a.len(),
{
    if a.len() > 0 {
        lemma_fviews_index(a.drop_last());
        assert forall|i: int| 0 <= i < a.len() implies #[trigger] fviews(a)[i] == fview(a[i]) by {
            if i < a.len() - 1 {
                assert(a.drop_last()[i] == a[i]);
            }
        }
    }
}

pub(crate) proof fn lemma_fviews_push(a: Seq<Formula>, x: Formula)
    ensures
        fviews(a.push(x)) == fviews(a).push(fview(x)),
{
    assert(a.push(x).drop_last() =~= a);
}

pub(crate) proof fn lemma_fviews_len(a: Seq<Formula>)
    ensures
        fviews(a).len() == a.len(),
    decreases a.len(),
{
    if a.len() > 0 {
        lemma_fviews_len(a.drop_last());
    }
}

pub(crate) proof fn lemma_fviews_cat(a: Seq<Formula>, b: Seq<Formula>)
    ensures
        fviews(a + b) == fviews(a) + fviews(b),
    decreases b.len(),
{
    if b.len() == 0 {
        assert(a + b =~= a);
        assert(fviews(a) + fviews(b) =~= fviews(a));
    } else {
        assert((a + b).drop_last() =~= a + b.drop_last());
        assert((a + b).last() == b.last());
        lemma_fviews_cat(a, b.drop_last());
        assert(fviews(a) + fviews(b) =~= fviews(a) + fviews(b.drop_last()) + seq![fview(b.last())]);
        assert(fviews(a + b) =~= fviews(a + b.drop_last()).push(fview(b.last())));
    }
}

/// A trajectory-constraint tree: modal constraints under conjunctions,
/// universal quantifiers and preferences.
#[derive(Debug, PartialEq, Eq)]
pub enum Constraint {
    Modal(Traj),
    And(Vec<Constraint>),
    Forall(Vec<(Sym, Sym)>, Box<Constraint>),
    Pref(Option<Sym>, Box<Constraint>),
}

/// A constraint tree as a value.
pub enum ConstraintView {
    Modal(nat, FormulaView, FormulaView),
    And(Seq<ConstraintView>),
    Forall(Seq<(Seq<char>, Seq<char>)>, Box<ConstraintView>),
    Pref(Option<Seq<char>>, Box<ConstraintView>),
}

pub open spec fn traj_view(t: Traj) -> ConstraintView {
    match t {
        Traj::Always(f) => ConstraintView::Modal(0, fview(f), FormulaView::True),
        Traj::Sometime(f) => ConstraintView::Modal(1, fview(f), FormulaView::True),
        Traj::AtMostOnce(f) => ConstraintView::Modal(2, fview(f), FormulaView::True),
        Traj::SometimeAfter(a, b) => ConstraintView::Modal(3, fview(a), fview(b)),
        Traj::SometimeBefore(a, b) => ConstraintView::Modal(4, fview(a), fview(b)),
        Traj::AtEnd(f) => ConstraintView::Modal(5, fview(f), FormulaView::True),
    }
}

pub open spec fn cview(c: Constraint) -> ConstraintView
    decreases c, 0int,
{
    match c {
        Constraint::Modal(t) => traj_view(t),
        Constraint::And(cs) => ConstraintView::And(cviews(cs@)),
        Constraint::Forall(vs, g) => ConstraintView::Forall(bind_view(vs@), Box::new(cview(*g))),
        Constraint::Pref(n, g) => ConstraintView::Pref(
            match n {
                Some(s) => Some(s@),
                None => None,
            },
            Box::new(cview(*g)),
        ),
    }
}

pub open spec fn cviews(cs: Seq<Constraint>) -> Seq<ConstraintView>
    decreases cs, 1int,
{
    if cs.len() == 0 {
        seq![]
    } else {
        cviews(cs.drop_last()).push(cview(cs.last()))
    }
}

/// Whether some constraint of `cs` holds a preference, outside any other
/// preference.
pub open spec fn any_pref(cs: Seq<Constraint>) -> bool
    decreases cs, 1int,
{
    cs.len() > 0 && (any_pref(cs.drop_last()) || has_pref(cs.last()))
}

pub open spec fn has_pref(c: Constraint) -> bool
    decreases c, 0int,
{
    match c {
        Constraint::Pref(_, _) => true,
        Constraint::And(cs) => any_pref(cs@),
        Constraint::Forall(_, g) => has_pref(*g),
        Constraint::Modal(_) => false,
    }
}

/// Whether a constraint tree holds a preference.
pub fn has_soft_constraint(c: &Constraint) -> (r: bool)
    ensures
        r == has_pref(*c),
    decreases *c, 0int,
{
    match c {
        Constraint::Pref(_, _) => true,
        Constraint::And(cs) => {
            proof {
                assert(decreases_to!(*c => (*c)->And_0));
                assert(decreases_to!((*c)->And_0 => (*c)->And_0@));
            }
            has_soft_constraints(cs)
        },
        Constraint::Forall(_, g) => {
            proof {
                assert(decreases_to!(*c => (*c)->Forall_1));
            }
            has_soft_constraint(g)
        },
        Constraint::Modal(_) => false,
    }
}

/// Whether some constraint tree of `cs` holds a preference.
pub fn has_soft_constraints(cs: &Vec<Constraint>) -> (r: bool)
    ensures
        r == any_pref(cs@),
    decreases cs@, 1int,
{
    let mut i: usize = 0;
    let mut found = false;
    assert(cs@.take(0) =~= Seq::<Constraint>::empty());
    while i < cs.len()
        invariant
            i <= cs.len(),
            found == any_pref(cs@.take(i as int)),
        decreases cs.len() - i,
    {
        proof {
            assert(decreases_to!(cs@ => cs@[i as int]));
        }
        let here = has_soft_constraint(&cs[i]);
        proof {
            let pre = cs@.take(i + 1);
            assert(pre.drop_last() =~= cs@.take(i as int));
            assert(pre.last() == cs@[i as int]);
        }
        found = found || here;
        i = i + 1;
    }
    assert(cs@.take(i as int) =~= cs@);
    found
}

/// Whether preference node `i` is kept.
pub open spec fn kept(keep: Seq<bool>, i: nat) -> bool {
    i < keep.len() && keep[i as int]
}

/// A constraint tree with its preference nodes numbered from `ctr` in
/// depth-first order: a kept node becomes its body (hard), a dropped one
/// vanishes, a conjunction keeps what is left of its members, a
/// quantifier what is left of its body. With the next number.
pub open spec fn map_one(c: Constraint, ctr: nat, keep: Seq<bool>) -> (Option<ConstraintView>, nat)
    decreases c, 0int,
{
    match c {
        Constraint::Pref(_, g) => (
            if kept(keep, ctr) {
                Some(cview(*g))
            } else {
                None
            },
            ctr + 1,
        ),
        Constraint::And(cs) => {
            let (v, next) = map_list(cs@, ctr, keep);
            (
                if v.len() > 0 {
                    Some(ConstraintView::And(v))
                } else {
                    None
                },
                next,
            )
        },
        Constraint::Forall(vs, g) => {
            let (o, next) = map_one(*g, ctr, keep);
            (
                match o {
                    Some(x) => Some(ConstraintView::Forall(bind_view(vs@), Box::new(x))),
                    None => None,
                },
                next,
            )
        },
        Constraint::Modal(t) => (Some(traj_view(t)), ctr),
    }
}

pub open spec fn map_list(cs: Seq<Constraint>, ctr: nat, keep: Seq<bool>) -> (Seq<ConstraintView>, nat)
    decreases cs, 1int,
{
    if cs.len() == 0 {
        (seq![], ctr)
    } else {
        let (v, mid) = map_list(cs.drop_last(), ctr, keep);
        let (o, next) = map_one(cs.last(), mid, keep);
        (
            match o {
                Some(x) => v.push(x),
                None => v,
            },
            next,
        )
    }
}

fn copy_traj(t: &Traj) -> (r: Traj)
    ensures
        traj_view(r) == traj_view(*t),
{
    match t {
        Traj::Always(f) => Traj::Always(copy_formula(f)),
        Traj::Sometime(f) => Traj::Sometime(copy_formula(f)),
        Traj::AtMostOnce(f) => Traj::AtMostOnce(copy_formula(f)),
        Traj::SometimeAfter(a, b) => Traj::SometimeAfter(copy_formula(a), copy_formula(b)),
        Traj::SometimeBefore(a, b) => Traj::SometimeBefore(copy_formula(a), copy_formula(b)),
        Traj::AtEnd(f) => Traj::AtEnd(copy_formula(f)),
    }
}

/// A copy of a constraint tree.
pub fn copy_constraint(c: &Constraint) -> (r: Constraint)
    ensures
        cview(r) == cview(*c),
    decreases *c, 0int,
{
    match c {
        Constraint::Modal(t) => Constraint::Modal(copy_traj(t)),
        Constraint::And(cs) => {
            proof {
                assert(decreases_to!(*c => (*c)->And_0));
                assert(decreases_to!((*c)->And_0 => (*c)->And_0@));
            }
            Constraint::And(copy_constraints(cs))
        },
        Constraint::Forall(vs, g) => {
            proof {
                assert(decreases_to!(*c => (*c)->Forall_1));
            }
            Constraint::Forall(copy_pairs(vs), Box::new(copy_constraint(g)))
        },
        Constraint::Pref(n, g) => {
            proof {
                assert(decreases_to!(*c => (*c)->Pref_1));
            }
            let n2 = match n {
                Some(s) => Some(s.clone()),
                None => None,
            };
            Constraint::Pref(n2, Box::new(copy_constraint(g)))
        },
    }
}

fn copy_constraints(cs: &Vec<Constraint>) -> (r: Vec<Constraint>)
    ensures
        cviews(r@) == cviews(cs@),
    decreases cs@, 1int,
{
    let mut r: Vec<Constraint> = Vec::new();
    let mut i: usize = 0;
    assert(cs@.take(0) =~= Seq::<Constraint>::empty());
    assert(r@ =~= Seq::<Constraint>::empty());
    while i < cs.len()
        invariant
            i <= cs.len(),
            cviews(r@) == cviews(cs@.take(i as int)),
        decreases cs.len() - i,
    {
        proof {
            assert(decreases_to!(cs@ => cs@[i as int]));
        }
        let x = copy_constraint(&cs[i]);
        let ghost r0 = r@;
        r.push(x);
        proof {
            assert(r@.drop_last() =~= r0);
            let pre = cs@.take(i + 1);
            assert(pre.drop_last() =~= cs@.take(i as int));
            assert(pre.last() == cs@[i as int]);
        }
        i = i + 1;
    }
    assert(cs@.take(i as int) =~= cs@);
    r
}

/// Number the preference nodes of a constraint tree from `*ctr` and keep
/// the bodies of those `keep` marks (see [`map_one`]).
pub fn map_soft_constraint(c: &Constraint, ctr: &mut usize, keep: &Vec<bool>) -> (r: Option<Constraint>)
    requires
        map_one(*c, *old(ctr) as nat, keep@).1 + 1 < usize::MAX,
    ensures
        map_one(*c, *old(ctr) as nat, keep@) == (
            match r {
                Some(x) => Some(cview(x)),
                None => None,
            },
            *final(ctr) as nat,
        ),
    decreases *c, 0int,
{
    match c {
        Constraint::Pref(_, g) => {
            let i = *ctr;
            *ctr = *ctr + 1;
            if i < keep.len() && keep[i] {
                Some(copy_constraint(g))
            } else {
                None
            }
        },
        Constraint::And(cs) => {
            proof {
                assert(decreases_to!(*c => (*c)->And_0));
                assert(decreases_to!((*c)->And_0 => (*c)->And_0@));
            }
            let v = map_soft_constraints(cs, ctr, keep);
            if v.len() > 0 {
                Some(Constraint::And(v))
            } else {
                None
            }
        },
        Constraint::Forall(vs, g) => {
            proof {
                assert(decreases_to!(*c => (*c)->Forall_1));
            }
            match map_soft_constraint(g, ctr, keep) {
                Some(x) => Some(Constraint::Forall(copy_pairs(vs), Box::new(x))),
                None => None,
            }
        },
        Constraint::Modal(t) => Some(Constraint::Modal(copy_traj(t))),
    }
}

proof fn lemma_map_list_grows(cs: Seq<Constraint>, ctr: nat, keep: Seq<bool>)
    ensures
        map_list(cs, ctr, keep).1 >= ctr,
    decreases cs, 1int,
{
    if cs.len() > 0 {
        lemma_map_list_grows(cs.drop_last(), ctr, keep);
        lemma_map_one_grows(cs.last(), map_list(cs.drop_last(), ctr, keep).1, keep);
    }
}

proof fn lemma_map_one_grows(c: Constraint, ctr: nat, keep: Seq<bool>)
    ensures
        map_one(c, ctr, keep).1 >= ctr,
    decreases c, 0int,
{
    match c {
        Constraint::And(cs) => {
            assert(decreases_to!(c => c->And_0));
            assert(decreases_to!(c->And_0 => c->And_0@));
            lemma_map_list_grows(cs@, ctr, keep);
        },
        Constraint::Forall(_, g) => {
            assert(decreases_to!(c => c->Forall_1));
            lemma_map_one_grows(*g, ctr, keep);
        },
        _ => {},
    }
}

/// Number the preference nodes of a list of constraint trees from `*ctr`,
/// tree after tree, and keep what [`map_soft_constraint`] keeps of each.
pub fn map_soft_constraints(cs: &Vec<Constraint>, ctr: &mut usize, keep: &Vec<bool>) -> (r: Vec<Constraint>)
    requires
        map_list(cs@, *old(ctr) as nat, keep@).1 + 1 < usize::MAX,
    ensures
        map_list(cs@, *old(ctr) as nat, keep@) == (cviews(r@), *final(ctr) as nat),
    decreases cs@, 1int,
{
    let ghost all = cs@;
    let ghost c0 = *ctr as nat;
    let mut out: Vec<Constraint> = Vec::new();
    let mut i: usize = 0;
    proof {
        assert(all.take(0) =~= Seq::<Constraint>::empty());
        assert(cviews(out@) =~= Seq::<ConstraintView>::empty());
    }
    while i < cs.len()
        invariant
            i <= cs.len(),
            all == cs@,
            map_list(all.take(i as int), c0, keep@) == (cviews(out@), *ctr as nat),
            map_list(all, c0, keep@).1 + 1 < usize::MAX,
        decreases cs.len() - i,
    {
        proof {
            assert(decreases_to!(cs@ => cs@[i as int]));
            let pre = all.take(i + 1);
            assert(pre.drop_last() =~= all.take(i as int));
            assert(pre.last() == all[i as int]);
            lemma_map_prefix_bound(all, i as int + 1, c0, keep@);
        }
        let ghost o0 = out@;
        let o = map_soft_constraint(&cs[i], ctr, keep);
        match o {
            Some(x) => {
                out.push(x);
                proof {
                    assert(out@.drop_last() =~= o0);
                }
            },
            None => {},
        }
        i = i + 1;
    }
    assert(all.take(i as int) =~= all);
    out
}

proof fn lemma_map_prefix_bound(cs: Seq<Constraint>, i: int, ctr: nat, keep: Seq<bool>)
    requires
        0 <= i <= cs.len(),
    ensures
        map_list(cs.take(i), ctr, keep).1 <= map_list(cs, ctr, keep).1,
    decreases cs.len(),
{
    if i < cs.len() {
        assert(cs.drop_last().take(i) =~= cs.take(i));
        lemma_map_prefix_bound(cs.drop_last(), i, ctr, keep);
        lemma_map_one_grows(cs.last(), map_list(cs.drop_last(), ctr, keep).1, keep);
    } else {
        assert(cs.take(i) =~= cs);
    }
}

/// What partial evaluation against the static facts makes of a formula.
#[derive(Clone, Copy, Debug, PartialEq, Eq, Structural)]
pub enum Partial {
    True,
    False,
    Open,
}

/// A modal member of a preference, its formulas partially evaluated.
#[derive(Clone, Copy, Debug, PartialEq, Eq, Structural)]
pub enum Judged {
    Always(Partial),
    Sometime(Partial),
    AtMostOnce(Partial),
    SometimeAfter(Partial, Partial),
    SometimeBefore(Partial, Partial),
    AtEnd(Partial),
}

/// Whether a member can never be met, whatever the plan: its body is
/// statically false; or its trigger always holds and its discharge never
/// can; or (before) its trigger holds from the start, with nothing
/// earlier. An at-most-once member is met by never opening a second
/// episode.
pub open spec fn member_dead(m: Judged) -> bool {
    match m {
        Judged::Always(f) | Judged::Sometime(f) | Judged::AtEnd(f) => f == Partial::False,
        Judged::SometimeAfter(a, b) => a == Partial::True && b == Partial::False,
        Judged::SometimeBefore(a, _) => a == Partial::True,
        Judged::AtMostOnce(_) => false,
    }
}

/// Whether a member is statically hopeless (see [`member_dead`]).
pub fn dead_member(m: Judged) -> (r: bool)
    ensures
        r == member_dead(m),
{
    match m {
        Judged::Always(f) | Judged::Sometime(f) | Judged::AtEnd(f) => f == Partial::False,
        Judged::SometimeAfter(a, b) => a == Partial::True && b == Partial::False,
        Judged::SometimeBefore(a, _) => a == Partial::True,
        Judged::AtMostOnce(_) => false,
    }
}

/// Per preference node, in numbering order, whether it is statically
/// dead: a constraint preference when some member of some binding is
/// (`nodes` holds each node's members over all its bindings), then a goal
/// preference when its expanded body partially evaluates to false.
pub fn statically_dead_soft_nodes(nodes: &Vec<Vec<Judged>>, goal_prefs: &Vec<Partial>) -> (r: Vec<bool>)
    ensures
        r.len() == nodes.len() + goal_prefs.len(),
        forall|g: int|
            0 <= g < nodes.len() ==> (#[trigger] r@[g] <==> exists|j: int|
                0 <= j < nodes@[g].len() && member_dead(#[trigger] nodes@[g]@[j])),
        forall|k: int| 0 <= k < goal_prefs.len() ==> #[trigger] r@[nodes.len() + k] == (goal_prefs@[k] == Partial::False),
{
    let mut r: Vec<bool> = Vec::new();
    let mut g: usize = 0;
    while g < nodes.len()
        invariant
            g <= nodes.len(),
            r.len() == g,
            forall|h: int|
                0 <= h < g ==> (#[trigger] r@[h] <==> exists|j: int|
                    0 <= j < nodes@[h].len() && member_dead(#[trigger] nodes@[h]@[j])),
        decreases nodes.len() - g,
    {
        let members = &nodes[g];
        let mut dead = false;
        let mut j: usize = 0;
        while j < members.len()
            invariant
                j <= members.len(),
                dead <==> exists|q: int| 0 <= q < j && member_dead(#[trigger] members@[q]),
            decreases members.len() - j,
        {
            if dead_member(members[j]) {
                dead = true;
            }
            j = j + 1;
        }
        r.push(dead);
        g = g + 1;
    }
    let mut k: usize = 0;
    while k < goal_prefs.len()
        invariant
            k <= goal_prefs.len(),
            r.len() == nodes.len() + k,
            forall|h: int|
                0 <= h < nodes.len() ==> (#[trigger] r@[h] <==> exists|j: int|
                    0 <= j < nodes@[h].len() && member_dead(#[trigger] nodes@[h]@[j])),
            forall|q: int| 0 <= q < k ==> #[trigger] r@[nodes.len() + q] == (goal_prefs@[q] == Partial::False),
        decreases goal_prefs.len() - k,
    {
        r.push(goal_prefs[k] == Partial::False);
        k = k + 1;
    }
    r
}

/// What a constraint says of a one-state trajectory, where its first
/// formula holds exactly when `a0` and its second exactly when `b0`.
pub open spec fn one_state_truth(t: Traj, a0: bool, b0: bool) -> bool {
    match t {
        Traj::Always(_) => a0,
        Traj::Sometime(_) => a0,
        Traj::AtEnd(_) => a0,
        Traj::AtMostOnce(_) => true,
        Traj::SometimeAfter(_, _) => !a0 || b0,
        Traj::SometimeBefore(_, _) => !a0,
    }
}

/// Whether `v` gives the constraint's formulas the truth values `a0` and
/// `b0`.
pub open spec fn formulas_judged(t: Traj, a0: bool, b0: bool, v: spec_fn(FormulaView) -> bool) -> bool {
    match t {
        Traj::Always(f) => holds(fview(f), v) == a0,
        Traj::Sometime(f) => holds(fview(f), v) == a0,
        Traj::AtEnd(f) => holds(fview(f), v) == a0,
        Traj::AtMostOnce(f) => holds(fview(f), v) == a0,
        Traj::SometimeAfter(a, b) => holds(fview(a), v) == a0 && holds(fview(b), v) == b0,
        Traj::SometimeBefore(a, b) => holds(fview(a), v) == a0 && holds(fview(b), v) == b0,
    }
}

proof fn lemma_all_hold1(x: FormulaView, v: spec_fn(FormulaView) -> bool)
    ensures
        all_hold(seq![x], v) == holds(x, v),
{
    assert(seq![x].drop_last() =~= Seq::<FormulaView>::empty());
    assert(all_hold(Seq::<FormulaView>::empty(), v));
}

proof fn lemma_any_holds2(x: FormulaView, y: FormulaView, v: spec_fn(FormulaView) -> bool)
    ensures
        any_holds(seq![x, y], v) == (holds(x, v) || holds(y, v)),
{
    assert(seq![x, y].drop_last() =~= seq![x]);
    assert(seq![x].drop_last() =~= Seq::<FormulaView>::empty());
    assert(!any_holds(Seq::<FormulaView>::empty(), v));
    assert(any_holds(seq![x], v) == holds(x, v));
    assert(seq![x, y].last() == y);
}

proof fn lemma_all_hold3(x: FormulaView, y: FormulaView, z: FormulaView, v: spec_fn(FormulaView) -> bool)
    ensures
        all_hold(seq![x, y, z], v) == (holds(x, v) && holds(y, v) && holds(z, v)),
{
    assert(seq![x, y, z].drop_last() =~= seq![x, y]);
    lemma_all_hold2(x, y, v);
    assert(seq![x, y, z].last() == z);
}

/// On the empty plan the trajectory is the initial state alone: with the
/// monitor facts at their initial values and the constraint's formulas
/// judged as in the initial state, the monitor's acceptance holds exactly
/// when the constraint holds of that one-state trajectory. So a
/// sometime-after whose trigger has not happened owes nothing, and an
/// always whose formula fails initially is already violated.
pub proof fn law_monitor_judges_the_empty_plan_as_the_constraint_does(
    i: nat,
    t: Traj,
    a0: bool,
    b0: bool,
    v: spec_fn(FormulaView) -> bool,
)
    requires
        formulas_judged(t, a0, b0, v),
        forall|j: int|
            0 <= j < monitor_of(i, t, a0, b0).0.len() ==> holds(
                fact0(#[trigger] monitor_of(i, t, a0, b0).0[j].0),
                v,
            ) == monitor_of(i, t, a0, b0).0[j].1,
    ensures
        all_hold(monitor_of(i, t, a0, b0).2, v) == one_state_truth(t, a0, b0),
{
    let m = monitor_of(i, t, a0, b0);
    match t {
        Traj::Always(f) => {
            let viol = mfact(i, "-VIOL"@);
            assert(m.0[0] == (viol, !a0));
            assert(holds(fact0(m.0[0].0), v) == m.0[0].1);
            assert(holds(fnot(fact0(viol)), v) == a0);
            lemma_all_hold2(fnot(fact0(viol)), fview(f), v);
            assert(m.2 == seq![fnot(fact0(viol)), fview(f)]);
            assert(holds(fview(f), v) == a0);
            assert(all_hold(m.2, v) == a0);
            assert(one_state_truth(t, a0, b0) == a0);
        },
        Traj::Sometime(f) => {
            let seen = mfact(i, "-SEEN"@);
            assert(m.0[0].0 == seen);
            lemma_any_holds2(fact0(seen), fview(f), v);
            lemma_all_hold1(FormulaView::Or(seq![fact0(seen), fview(f)]), v);
            assert(all_hold(m.2, v) == one_state_truth(t, a0, b0));
        },
        Traj::AtEnd(f) => {
            lemma_all_hold1(fview(f), v);
            assert(all_hold(m.2, v) == one_state_truth(t, a0, b0));
        },
        Traj::AtMostOnce(f) => {
            let hold = mfact(i, "-HOLD"@);
            let seen = mfact(i, "-SEEN"@);
            let viol = mfact(i, "-VIOL"@);
            assert(m.0[0] == (hold, a0));
            assert(m.0[1] == (seen, a0));
            assert(m.0[2] == (viol, false));
            assert(holds(fact0(m.0[0].0), v) == m.0[0].1);
            assert(holds(fact0(m.0[1].0), v) == m.0[1].1);
            assert(holds(fact0(m.0[2].0), v) == m.0[2].1);
            let rising = FormulaView::And(seq![fview(f), fnot(fact0(hold)), fact0(seen)]);
            lemma_all_hold3(fview(f), fnot(fact0(hold)), fact0(seen), v);
            lemma_all_hold2(fnot(fact0(viol)), fnot(rising), v);
            assert(holds(fact0(hold), v) == a0);
            assert(holds(fact0(seen), v) == a0);
            assert(holds(fact0(viol), v) == false);
            assert(holds(fview(f), v) == a0);
            assert(!holds(rising, v));
            assert(m.2 == seq![fnot(fact0(viol)), fnot(rising)]);
            assert(all_hold(m.2, v) == one_state_truth(t, a0, b0));
        },
        Traj::SometimeAfter(a, b) => {
            let pend = mfact(i, "-PEND"@);
            assert(m.0[0].0 == pend);
            let rest = FormulaView::And(seq![fnot(fact0(pend)), fnot(fview(a))]);
            lemma_all_hold2(fnot(fact0(pend)), fnot(fview(a)), v);
            lemma_any_holds2(fview(b), rest, v);
            lemma_all_hold1(FormulaView::Or(seq![fview(b), rest]), v);
            assert(all_hold(m.2, v) == one_state_truth(t, a0, b0));
        },
        Traj::SometimeBefore(a, b) => {
            let safe = mfact(i, "-SAFE"@);
            let viol = mfact(i, "-VIOL"@);
            assert(m.0[0].0 == safe);
            assert(m.0[1].0 == viol);
            lemma_any_holds2(fnot(fview(a)), fact0(safe), v);
            lemma_all_hold2(fnot(fact0(viol)), FormulaView::Or(seq![fnot(fview(a)), fact0(safe)]), v);
            assert(all_hold(m.2, v) == one_state_truth(t, a0, b0));
        },
    }
}

/// Whether some transition of `ts` whose condition holds under `v` adds
/// the fact `n`.
pub open spec fn added_by(ts: Seq<TransView>, n: Seq<char>, v: spec_fn(FormulaView) -> bool) -> bool {
    exists|j: int| 0 <= j < ts.len() && holds(#[trigger] ts[j].0, v) && ts[j].1.contains(n)
}

/// Whether some transition of `ts` whose condition holds under `v`
/// deletes the fact `n`.
pub open spec fn deleted_by(ts: Seq<TransView>, n: Seq<char>, v: spec_fn(FormulaView) -> bool) -> bool {
    exists|j: int| 0 <= j < ts.len() && holds(#[trigger] ts[j].0, v) && ts[j].2.contains(n)
}

/// A monitor fact after one action from the state `v` judges: added if a
/// firing transition adds it (adds win), else kept unless one deletes it.
pub open spec fn stepped(before: bool, ts: Seq<TransView>, n: Seq<char>, v: spec_fn(FormulaView) -> bool) -> bool {
    added_by(ts, n, v) || (before && !deleted_by(ts, n, v))
}

/// What a constraint says of a two-state trajectory, where its first
/// formula holds in the states exactly when `a0`, `a1` and its second when
/// `b0`, `b1`.
pub open spec fn two_state_truth(t: Traj, a0: bool, b0: bool, a1: bool, b1: bool) -> bool {
    match t {
        Traj::Always(_) => a0 && a1,
        Traj::Sometime(_) => a0 || a1,
        Traj::AtEnd(_) => a1,
        Traj::AtMostOnce(_) => true,
        Traj::SometimeAfter(_, _) => (a0 ==> b0 || b1) && (a1 ==> b1),
        Traj::SometimeBefore(_, _) => !a0 && (a1 ==> b0),
    }
}

proof fn lemma_seq1_has(x: Seq<char>, n: Seq<char>)
    ensures
        seq![x].contains(n) <==> x == n,
{
    if x == n {
        assert(seq![x][0] == n);
    }
}

proof fn lemma_seq2_has(x: Seq<char>, y: Seq<char>, n: Seq<char>)
    ensures
        seq![x, y].contains(n) <==> (x == n || y == n),
{
    if x == n {
        assert(seq![x, y][0] == n);
    }
    if y == n {
        assert(seq![x, y][1] == n);
    }
}

/// Over one action, the monitor tracks the constraint: started at its
/// initial facts in the first state and stepped by its transitions, its
/// acceptance in the second state holds exactly when the constraint holds
/// of the two-state trajectory. So `sometime-before` needs its witness
/// strictly earlier, `sometime-after` accepts a response in either state,
/// and `always` needs both states.
pub proof fn law_monitor_tracks_the_constraint_over_one_step(
    i: nat,
    t: Traj,
    a0: bool,
    b0: bool,
    a1: bool,
    b1: bool,
    v0: spec_fn(FormulaView) -> bool,
    v1: spec_fn(FormulaView) -> bool,
)
    requires
        formulas_judged(t, a0, b0, v0),
        formulas_judged(t, a1, b1, v1),
        forall|j: int|
            0 <= j < monitor_of(i, t, a0, b0).0.len() ==> holds(
                fact0(#[trigger] monitor_of(i, t, a0, b0).0[j].0),
                v0,
            ) == monitor_of(i, t, a0, b0).0[j].1,
        forall|j: int|
            0 <= j < monitor_of(i, t, a0, b0).0.len() ==> holds(
                fact0(#[trigger] monitor_of(i, t, a0, b0).0[j].0),
                v1,
            ) == stepped(
                monitor_of(i, t, a0, b0).0[j].1,
                monitor_of(i, t, a0, b0).1,
                monitor_of(i, t, a0, b0).0[j].0,
                v0,
            ),
    ensures
        all_hold(monitor_of(i, t, a0, b0).2, v1) == two_state_truth(t, a0, b0, a1, b1),
{
    let m = monitor_of(i, t, a0, b0);
    let ts = m.1;
    match t {
        Traj::Always(f) => {
            let viol = mfact(i, "-VIOL"@);
            assert(m.0[0] == (viol, !a0));
            assert(holds(fact0(m.0[0].0), v1) == stepped(m.0[0].1, ts, m.0[0].0, v0));
            lemma_seq1_has(viol, viol);
            assert(holds(ts[0].0, v0) == !a0);
            if !a0 {
                assert(added_by(ts, viol, v0));
            }
            assert(!deleted_by(ts, viol, v0)) by {
                assert(ts[0].2 =~= Seq::<Seq<char>>::empty());
            }
            assert(holds(fact0(viol), v1) == !a0);
            lemma_all_hold2(fnot(fact0(viol)), fview(f), v1);
            assert(m.2 == seq![fnot(fact0(viol)), fview(f)]);
        },
        Traj::Sometime(f) => {
            let seen = mfact(i, "-SEEN"@);
            assert(m.0[0] == (seen, a0));
            assert(holds(fact0(m.0[0].0), v1) == stepped(m.0[0].1, ts, m.0[0].0, v0));
            lemma_seq1_has(seen, seen);
            assert(ts[0] == (fview(f), seq![seen], Seq::<Seq<char>>::empty()));
            if a0 {
                assert(holds(ts[0].0, v0));
                assert(ts[0].1.contains(seen));
                assert(added_by(ts, seen, v0));
            }
            assert(!deleted_by(ts, seen, v0)) by {
                assert(ts[0].2 =~= Seq::<Seq<char>>::empty());
            }
            assert(holds(fact0(seen), v1) == a0);
            lemma_any_holds2(fact0(seen), fview(f), v1);
            lemma_all_hold1(FormulaView::Or(seq![fact0(seen), fview(f)]), v1);
        },
        Traj::AtEnd(f) => {
            lemma_all_hold1(fview(f), v1);
        },
        Traj::AtMostOnce(f) => {
            let hold = mfact(i, "-HOLD"@);
            let seen = mfact(i, "-SEEN"@);
            let viol = mfact(i, "-VIOL"@);
            assert(m.0[0] == (hold, a0));
            assert(m.0[1] == (seen, a0));
            assert(m.0[2] == (viol, false));
            assert(holds(fact0(m.0[0].0), v0) == m.0[0].1);
            assert(holds(fact0(m.0[1].0), v0) == m.0[1].1);
            assert(holds(fact0(m.0[2].0), v1) == stepped(m.0[2].1, ts, m.0[2].0, v0));
            assert(holds(fact0(m.0[0].0), v1) == stepped(m.0[0].1, ts, m.0[0].0, v0));
            assert(holds(fact0(m.0[1].0), v1) == stepped(m.0[1].1, ts, m.0[1].0, v0));
            lemma_all_hold3(fview(f), fnot(fact0(hold)), fact0(seen), v0);
            lemma_all_hold2(fview(f), fnot(fact0(hold)), v0);
            lemma_all_hold2(fnot(fview(f)), fact0(hold), v0);
            // No transition fires in the first state.
            assert(!holds(ts[0].0, v0));
            assert(!holds(ts[1].0, v0));
            assert(!holds(ts[2].0, v0));
            assert(!added_by(ts, viol, v0));
            assert(!added_by(ts, hold, v0));
            assert(!added_by(ts, seen, v0));
            assert(!deleted_by(ts, hold, v0));
            assert(!deleted_by(ts, seen, v0));
            assert(holds(fact0(viol), v1) == false);
            assert(holds(fact0(hold), v1) == a0);
            assert(holds(fact0(seen), v1) == a0);
            let rising = FormulaView::And(seq![fview(f), fnot(fact0(hold)), fact0(seen)]);
            lemma_all_hold3(fview(f), fnot(fact0(hold)), fact0(seen), v1);
            lemma_all_hold2(fnot(fact0(viol)), fnot(rising), v1);
            assert(!holds(rising, v1));
            assert(m.2 == seq![fnot(fact0(viol)), fnot(rising)]);
        },
        Traj::SometimeAfter(a, b) => {
            let pend = mfact(i, "-PEND"@);
            assert(m.0[0] == (pend, a0 && !b0));
            assert(holds(fact0(m.0[0].0), v1) == stepped(m.0[0].1, ts, m.0[0].0, v0));
            lemma_seq1_has(pend, pend);
            lemma_all_hold2(fview(a), fnot(fview(b)), v0);
            assert(holds(ts[0].0, v0) == b0);
            assert(holds(ts[1].0, v0) == (a0 && !b0));
            if a0 && !b0 {
                assert(ts[1].1.contains(pend));
                assert(added_by(ts, pend, v0));
            }
            assert(added_by(ts, pend, v0) ==> a0 && !b0) by {
                if added_by(ts, pend, v0) {
                    let j = choose|j: int| 0 <= j < ts.len() && holds(#[trigger] ts[j].0, v0) && ts[j].1.contains(pend);
                    assert(ts[0].1 =~= Seq::<Seq<char>>::empty());
                    assert(j == 1);
                }
            }
            assert(holds(fact0(pend), v1) == (a0 && !b0));
            let rest = FormulaView::And(seq![fnot(fact0(pend)), fnot(fview(a))]);
            lemma_all_hold2(fnot(fact0(pend)), fnot(fview(a)), v1);
            lemma_any_holds2(fview(b), rest, v1);
            lemma_all_hold1(FormulaView::Or(seq![fview(b), rest]), v1);
        },
        Traj::SometimeBefore(a, b) => {
            let safe = mfact(i, "-SAFE"@);
            let viol = mfact(i, "-VIOL"@);
            reveal_strlit("-SAFE");
            reveal_strlit("-VIOL");
            lemma_suffixes_differ(i, "-SAFE"@, "-VIOL"@, 1);
            assert(m.0[0] == (safe, b0));
            assert(m.0[1] == (viol, a0));
            assert(holds(fact0(m.0[0].0), v0) == m.0[0].1);
            assert(holds(fact0(m.0[0].0), v1) == stepped(m.0[0].1, ts, m.0[0].0, v0));
            assert(holds(fact0(m.0[1].0), v1) == stepped(m.0[1].1, ts, m.0[1].0, v0));
            lemma_seq1_has(viol, safe);
            lemma_seq1_has(safe, viol);
            lemma_seq1_has(safe, safe);
            lemma_seq1_has(viol, viol);
            lemma_all_hold2(fview(a), fnot(fact0(safe)), v0);
            assert(holds(ts[0].0, v0) == (a0 && !b0));
            assert(holds(ts[1].0, v0) == b0);
            assert(!deleted_by(ts, safe, v0)) by {
                assert(ts[0].2 =~= Seq::<Seq<char>>::empty());
                assert(ts[1].2 =~= Seq::<Seq<char>>::empty());
            }
            assert(!deleted_by(ts, viol, v0)) by {
                assert(ts[0].2 =~= Seq::<Seq<char>>::empty());
                assert(ts[1].2 =~= Seq::<Seq<char>>::empty());
            }
            if b0 {
                assert(added_by(ts, safe, v0));
            }
            assert(added_by(ts, safe, v0) ==> b0) by {
                if added_by(ts, safe, v0) {
                    let j = choose|j: int| 0 <= j < ts.len() && holds(#[trigger] ts[j].0, v0) && ts[j].1.contains(safe);
                    assert(j == 1);
                }
            }
            assert(added_by(ts, viol, v0) ==> a0) by {
                if added_by(ts, viol, v0) {
                    let j = choose|j: int| 0 <= j < ts.len() && holds(#[trigger] ts[j].0, v0) && ts[j].1.contains(viol);
                    assert(j == 0);
                }
            }
            assert(holds(fact0(safe), v1) == b0);
            assert(holds(fact0(viol), v1) == a0);
            lemma_any_holds2(fnot(fview(a)), fact0(safe), v1);
            lemma_all_hold2(fnot(fact0(viol)), FormulaView::Or(seq![fnot(fview(a)), fact0(safe)]), v1);
            assert(m.2 == seq![fnot(fact0(viol)), FormulaView::Or(seq![fnot(fview(a)), fact0(safe)])]);
        },
    }
}
} // verus!
