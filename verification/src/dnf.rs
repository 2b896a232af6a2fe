//! Disjunctive normal form of lifted formulas under a binding: the
//! expansion grounding runs on every precondition, condition and goal.
//! Quantifiers expand over the typed objects; with static knowledge, a
//! fully bound literal on a predicate no operator adds is decided against
//! the initial state on the spot, and a disjunction with a true disjunct
//! collapses to true.

use vstd::prelude::*;
use crate::binding::{atom_in, atom_views, objects_for, objects_of, strs, AtomView};
use crate::text::str_eq;
use crate::types::{Sym, Term};

verus! {

/// A numeric comparison operator.
#[derive(Clone, Copy, Debug, PartialEq, Eq, Structural)]
pub enum CompOp {
    Lt,
    Le,
    Gt,
    Ge,
    Eq,
}

/// A numeric expression. A number is held as the bit pattern of its IEEE
/// double: the expansion only carries it.
#[derive(Debug, PartialEq, Eq)]
pub enum NumExpr {
    Num(u64),
    Fluent(Sym, Vec<Term>),
    Add(Box<NumExpr>, Box<NumExpr>),
    Sub(Box<NumExpr>, Box<NumExpr>),
    Mul(Box<NumExpr>, Box<NumExpr>),
    Div(Box<NumExpr>, Box<NumExpr>),
    Neg(Box<NumExpr>),
}

/// A lifted formula.
#[derive(Debug, PartialEq, Eq)]
pub enum Formula {
    True,
    False,
    Atom(Sym, Vec<Term>),
    Comp(CompOp, NumExpr, NumExpr),
    Eq(Term, Term),
    Not(Box<Formula>),
    And(Vec<Formula>),
    Or(Vec<Formula>),
    Forall(Vec<(Sym, Sym)>, Box<Formula>),
    Exists(Vec<(Sym, Sym)>, Box<Formula>),
    Pref(Option<Sym>, Box<Formula>),
}

/// One conjunct of a DNF: atoms that must hold, atoms that must not, and
/// numeric comparisons.
#[derive(Debug, PartialEq, Eq)]
pub struct Conjunct {
    pub pos: Vec<(Sym, Vec<Sym>)>,
    pub neg: Vec<(Sym, Vec<Sym>)>,
    pub num: Vec<(CompOp, NumExpr, NumExpr)>,
}

/// What a static literal is decided against: the initial atoms, the
/// predicates some operator adds, and those some operator deletes.
pub struct Statics {
    pub init: Vec<(Sym, Vec<Sym>)>,
    pub add_preds: Vec<Sym>,
    pub del_preds: Vec<Sym>,
}

// ----- views -----------------------------------------------------------------------------

/// A numeric expression by plain values.
pub enum NumView {
    Num(u64),
    Fluent(Seq<char>, Seq<Seq<char>>),
    Add(Box<NumView>, Box<NumView>),
    Sub(Box<NumView>, Box<NumView>),
    Mul(Box<NumView>, Box<NumView>),
    Div(Box<NumView>, Box<NumView>),
    Neg(Box<NumView>),
}

pub type NumLit = (CompOp, NumView, NumView);

pub type ConjView = (Seq<AtomView>, Seq<AtomView>, Seq<NumLit>);

/// A binding: `(variable, object)` pairs; a later pair for a variable
/// overrides an earlier one.
pub type Binding = Seq<(Seq<char>, Seq<char>)>;

pub open spec fn lookup(b: Binding, v: Seq<char>) -> Option<Seq<char>>
    decreases b.len(),
{
    if b.len() == 0 {
        None
    } else if b.last().0 == v {
        Some(b.last().1)
    } else {
        lookup(b.drop_last(), v)
    }
}

/// A term under a binding: a bound variable reads its object, an unbound
/// one stays as written, a constant is itself.
pub open spec fn term_under(t: Term, b: Binding) -> Seq<char> {
    match t {
        Term::Const(c) => c@,
        Term::Var(v) => match lookup(b, v@) {
            Some(o) => o,
            None => v@,
        },
    }
}

pub open spec fn args_under(a: Seq<Term>, b: Binding) -> Seq<Seq<char>> {
    a.map_values(|t: Term| term_under(t, b))
}

pub open spec fn bound(t: Term, b: Binding) -> bool {
    match t {
        Term::Const(_) => true,
        Term::Var(v) => lookup(b, v@) is Some,
    }
}

pub open spec fn num_view(e: NumExpr) -> NumView
    decreases e,
{
    match e {
        NumExpr::Num(n) => NumView::Num(n),
        NumExpr::Fluent(f, a) => NumView::Fluent(f@, a@.map_values(|t: Term| term_under(t, seq![]))),
        NumExpr::Add(x, y) => NumView::Add(Box::new(num_view(*x)), Box::new(num_view(*y))),
        NumExpr::Sub(x, y) => NumView::Sub(Box::new(num_view(*x)), Box::new(num_view(*y))),
        NumExpr::Mul(x, y) => NumView::Mul(Box::new(num_view(*x)), Box::new(num_view(*y))),
        NumExpr::Div(x, y) => NumView::Div(Box::new(num_view(*x)), Box::new(num_view(*y))),
        NumExpr::Neg(x) => NumView::Neg(Box::new(num_view(*x))),
    }
}

/// A numeric expression under a binding: every fluent argument resolved.
pub open spec fn num_under(e: NumExpr, b: Binding) -> NumView
    decreases e,
{
    match e {
        NumExpr::Num(n) => NumView::Num(n),
        NumExpr::Fluent(f, a) => NumView::Fluent(f@, args_under(a@, b)),
        NumExpr::Add(x, y) => NumView::Add(Box::new(num_under(*x, b)), Box::new(num_under(*y, b))),
        NumExpr::Sub(x, y) => NumView::Sub(Box::new(num_under(*x, b)), Box::new(num_under(*y, b))),
        NumExpr::Mul(x, y) => NumView::Mul(Box::new(num_under(*x, b)), Box::new(num_under(*y, b))),
        NumExpr::Div(x, y) => NumView::Div(Box::new(num_under(*x, b)), Box::new(num_under(*y, b))),
        NumExpr::Neg(x) => NumView::Neg(Box::new(num_under(*x, b))),
    }
}

pub open spec fn lit_view(l: (CompOp, NumExpr, NumExpr)) -> NumLit {
    (l.0, num_view(l.1), num_view(l.2))
}

pub open spec fn conj_view(c: Conjunct) -> ConjView {
    (atom_views(c.pos@), atom_views(c.neg@), c.num@.map_values(|l: (CompOp, NumExpr, NumExpr)| lit_view(l)))
}

pub open spec fn dnf_view(v: Seq<Conjunct>) -> Seq<ConjView> {
    v.map_values(|c: Conjunct| conj_view(c))
}

pub open spec fn statics_view(st: Option<&Statics>) -> Option<(Seq<AtomView>, Seq<Seq<char>>, Seq<Seq<char>>)> {
    match st {
        Some(s) => Some((atom_views(s.init@), strs(s.add_preds@), strs(s.del_preds@))),
        None => None,
    }
}

pub type StaticsView = Option<(Seq<AtomView>, Seq<Seq<char>>, Seq<Seq<char>>)>;

pub type Objects = Seq<(Sym, Vec<Sym>)>;

// ----- the expansion, stated -------------------------------------------------------------

pub open spec fn truth() -> Seq<ConjView> {
    seq![(seq![], seq![], seq![])]
}

pub open spec fn is_truth(c: ConjView) -> bool {
    c.0.len() == 0 && c.1.len() == 0 && c.2.len() == 0
}

pub open spec fn has_truth(d: Seq<ConjView>) -> bool {
    exists|i: int| 0 <= i < d.len() && is_truth(#[trigger] d[i])
}

pub open spec fn join(a: ConjView, c: ConjView) -> ConjView {
    (a.0 + c.0, a.1 + c.1, a.2 + c.2)
}

/// The conjunction of two DNFs: every conjunct of the first joined with
/// every conjunct of the second, the first's order outermost.
pub open spec fn product(acc: Seq<ConjView>, cd: Seq<ConjView>) -> Seq<ConjView>
    decreases acc.len(),
{
    if acc.len() == 0 {
        seq![]
    } else {
        product(acc.drop_last(), cd) + cd.map_values(|c: ConjView| join(acc.last(), c))
    }
}

pub open spec fn neg_comp(op: CompOp) -> CompOp {
    match op {
        CompOp::Lt => CompOp::Ge,
        CompOp::Le => CompOp::Gt,
        CompOp::Gt => CompOp::Le,
        CompOp::Ge => CompOp::Lt,
        CompOp::Eq => CompOp::Eq,
    }
}

/// The extensions of `b` by each variable of `vars` in turn, over the
/// objects of its type, the first variable outermost.
pub open spec fn combos(vars: Seq<(Sym, Sym)>, b: Binding, objs: Objects) -> Seq<Binding>
    decreases vars.len(),
{
    if vars.len() == 0 {
        seq![b]
    } else {
        extend(combos(vars.drop_last(), b, objs), vars.last().0@, objects_of(objs, vars.last().1@))
    }
}

pub open spec fn extend(cs: Seq<Binding>, v: Seq<char>, dom: Seq<Seq<char>>) -> Seq<Binding>
    decreases cs.len(),
{
    if cs.len() == 0 {
        seq![]
    } else {
        extend(cs.drop_last(), v, dom) + dom.map_values(|o: Seq<char>| cs.last().push((v, o)))
    }
}

/// The literal for an atom: decided on the spot when static knowledge
/// covers it (the predicate is never added and every argument is bound):
/// false when it is absent from init (true when negated); true when it is
/// in init and never deleted (false when negated); kept as a literal
/// otherwise.
pub open spec fn atom_dnf(p: Seq<char>, a: Seq<Term>, b: Binding, neg: bool, st: StaticsView) -> Seq<ConjView> {
    let atom = (p, args_under(a, b));
    let lit = if neg {
        seq![(seq![], seq![atom], seq![])]
    } else {
        seq![(seq![atom], seq![], seq![])]
    };
    match st {
        Some(s) => if !s.1.contains(p) && (forall|i: int| 0 <= i < a.len() ==> bound(#[trigger] a[i], b)) {
            let in_init = s.0.contains(atom);
            let deletable = s.2.contains(p);
            if !in_init {
                if neg {
                    truth()
                } else {
                    seq![]
                }
            } else if !deletable {
                if neg {
                    seq![]
                } else {
                    truth()
                }
            } else {
                lit
            }
        } else {
            lit
        },
        None => lit,
    }
}

/// A numeric comparison (or its negation): one literal with the operator
/// flipped, except that a negated equality is the two literals `<` and `>`.
pub open spec fn comp_dnf(op: CompOp, l: NumExpr, r: NumExpr, b: Binding, neg: bool) -> Seq<ConjView> {
    let lv = num_under(l, b);
    let rv = num_under(r, b);
    if neg && op == CompOp::Eq {
        seq![
            (Seq::<AtomView>::empty(), Seq::<AtomView>::empty(), seq![(CompOp::Lt, lv, rv)]),
            (Seq::<AtomView>::empty(), Seq::<AtomView>::empty(), seq![(CompOp::Gt, lv, rv)]),
        ]
    } else {
        seq![(Seq::<AtomView>::empty(), Seq::<AtomView>::empty(), seq![(if neg { neg_comp(op) } else { op }, lv, rv)])]
    }
}

/// The DNF of `f` (or of its negation, with `neg`) under the binding `b`.
pub open spec fn dnf(f: Formula, b: Binding, neg: bool, objs: Objects, st: StaticsView) -> Seq<ConjView>
    decreases f, 0int,
{
    match f {
        Formula::True => if neg {
            seq![]
        } else {
            truth()
        },
        Formula::False => if neg {
            truth()
        } else {
            seq![]
        },
        Formula::Atom(p, a) => atom_dnf(p@, a@, b, neg, st),
        Formula::Comp(op, l, r) => comp_dnf(op, l, r, b, neg),
        Formula::Eq(x, y) => if (term_under(x, b) == term_under(y, b)) != neg {
            truth()
        } else {
            seq![]
        },
        Formula::Not(g) => dnf(*g, b, !neg, objs, st),
        Formula::And(fs) => if neg {
            any_of(fs@, b, neg, objs, st)
        } else {
            all_of(fs@, b, neg, objs, st)
        },
        Formula::Or(fs) => if neg {
            all_of(fs@, b, neg, objs, st)
        } else {
            any_of(fs@, b, neg, objs, st)
        },
        Formula::Forall(vars, g) => if neg {
            some_binding(*g, combos(vars@, b, objs), neg, objs, st)
        } else {
            every_binding(*g, combos(vars@, b, objs), neg, objs, st)
        },
        Formula::Exists(vars, g) => if neg {
            every_binding(*g, combos(vars@, b, objs), neg, objs, st)
        } else {
            some_binding(*g, combos(vars@, b, objs), neg, objs, st)
        },
        Formula::Pref(_, _) => if neg {
            seq![]
        } else {
            truth()
        },
    }
}

/// The conjunction of the children's DNFs, in order.
pub open spec fn all_of(fs: Seq<Formula>, b: Binding, neg: bool, objs: Objects, st: StaticsView) -> Seq<ConjView>
    decreases fs, 1int,
{
    if fs.len() == 0 {
        truth()
    } else {
        product(all_of(fs.drop_last(), b, neg, objs, st), dnf(fs.last(), b, neg, objs, st))
    }
}

/// The children's DNFs one after another.
pub open spec fn cat_of(fs: Seq<Formula>, b: Binding, neg: bool, objs: Objects, st: StaticsView) -> Seq<ConjView>
    decreases fs, 1int,
{
    if fs.len() == 0 {
        seq![]
    } else {
        cat_of(fs.drop_last(), b, neg, objs, st) + dnf(fs.last(), b, neg, objs, st)
    }
}

/// Whether some child's DNF holds a conjunct that is just true.
pub open spec fn absorbs(fs: Seq<Formula>, b: Binding, neg: bool, objs: Objects, st: StaticsView) -> bool
    decreases fs, 1int,
{
    if fs.len() == 0 {
        false
    } else {
        absorbs(fs.drop_last(), b, neg, objs, st) || has_truth(dnf(fs.last(), b, neg, objs, st))
    }
}

/// The disjunction of the children: with static knowledge, true outright
/// when a child is; else their DNFs one after another.
pub open spec fn any_of(fs: Seq<Formula>, b: Binding, neg: bool, objs: Objects, st: StaticsView) -> Seq<ConjView>
    decreases fs, 2int,
{
    if st is Some && absorbs(fs, b, neg, objs, st) {
        truth()
    } else {
        cat_of(fs, b, neg, objs, st)
    }
}

/// The conjunction of `g`'s DNFs under each binding, in order.
pub open spec fn every_binding(g: Formula, cs: Seq<Binding>, neg: bool, objs: Objects, st: StaticsView) -> Seq<ConjView>
    decreases g, cs.len() + 1,
{
    if cs.len() == 0 {
        truth()
    } else {
        product(every_binding(g, cs.drop_last(), neg, objs, st), dnf(g, cs.last(), neg, objs, st))
    }
}

pub open spec fn cat_bindings(g: Formula, cs: Seq<Binding>, neg: bool, objs: Objects, st: StaticsView) -> Seq<ConjView>
    decreases g, cs.len() + 1,
{
    if cs.len() == 0 {
        seq![]
    } else {
        cat_bindings(g, cs.drop_last(), neg, objs, st) + dnf(g, cs.last(), neg, objs, st)
    }
}

pub open spec fn absorbs_bindings(g: Formula, cs: Seq<Binding>, neg: bool, objs: Objects, st: StaticsView) -> bool
    decreases g, cs.len() + 1,
{
    if cs.len() == 0 {
        false
    } else {
        absorbs_bindings(g, cs.drop_last(), neg, objs, st) || has_truth(dnf(g, cs.last(), neg, objs, st))
    }
}

/// The disjunction of `g` under each binding: with static knowledge, true
/// outright when one is; else the DNFs one after another.
pub open spec fn some_binding(g: Formula, cs: Seq<Binding>, neg: bool, objs: Objects, st: StaticsView) -> Seq<ConjView>
    decreases g, cs.len() + 2,
{
    if st is Some && absorbs_bindings(g, cs, neg, objs, st) {
        truth()
    } else {
        cat_bindings(g, cs, neg, objs, st)
    }
}

// ----- helpers -----------------------------------------------------------------------------

pub open spec fn bind_view(b: Seq<(Sym, Sym)>) -> Binding {
    b.map_values(|p: (Sym, Sym)| (p.0@, p.1@))
}

/// The object a binding gives `v`, its last pair for `v`.
fn lookup_var(b: &Vec<(Sym, Sym)>, v: &Sym) -> (r: Option<String>)
    ensures
        match r {
            Some(o) => lookup(bind_view(b@), v@) == Some(o@),
            None => lookup(bind_view(b@), v@) is None,
        },
{
    let mut i: usize = b.len();
    assert(bind_view(b@).take(i as int) =~= bind_view(b@));
    while i > 0
        invariant
            i <= b.len(),
            lookup(bind_view(b@), v@) == lookup(bind_view(b@).take(i as int), v@),
        decreases i,
    {
        let ghost pre = bind_view(b@).take(i as int);
        assert(pre.drop_last() =~= bind_view(b@).take(i - 1));
        if str_eq(b[i - 1].0.as_str(), v.as_str()) {
            return Some(b[i - 1].1.clone());
        }
        i = i - 1;
    }
    None
}

fn term_value(t: &Term, b: &Vec<(Sym, Sym)>) -> (r: Sym)
    ensures
        r@ == term_under(*t, bind_view(b@)),
{
    match t {
        Term::Const(c) => c.clone(),
        Term::Var(v) => match lookup_var(b, v) {
            Some(o) => o,
            None => v.clone(),
        },
    }
}

pub(crate) fn args_value(a: &Vec<Term>, b: &Vec<(Sym, Sym)>) -> (r: Vec<Sym>)
    ensures
        strs(r@) == args_under(a@, bind_view(b@)),
{
    let mut r: Vec<Sym> = Vec::new();
    let mut i: usize = 0;
    while i < a.len()
        invariant
            i <= a.len(),
            r.len() == i,
            forall|k: int| 0 <= k < i ==> (#[trigger] r@[k])@ == term_under(a@[k], bind_view(b@)),
        decreases a.len() - i,
    {
        r.push(term_value(&a[i], b));
        i = i + 1;
    }
    assert(strs(r@) =~= args_under(a@, bind_view(b@)));
    r
}

fn all_bound(a: &Vec<Term>, b: &Vec<(Sym, Sym)>) -> (r: bool)
    ensures
        r == forall|i: int| 0 <= i < a.len() ==> bound(#[trigger] a@[i], bind_view(b@)),
{
    let mut i: usize = 0;
    while i < a.len()
        invariant
            i <= a.len(),
            forall|k: int| 0 <= k < i ==> bound(#[trigger] a@[k], bind_view(b@)),
        decreases a.len() - i,
    {
        let ok = match &a[i] {
            Term::Const(_) => true,
            Term::Var(v) => lookup_var(b, v).is_some(),
        };
        if !ok {
            return false;
        }
        i = i + 1;
    }
    true
}

pub(crate) fn name_in(names: &Vec<Sym>, n: &Sym) -> (r: bool)
    ensures
        r == strs(names@).contains(n@),
{
    let mut i: usize = 0;
    while i < names.len()
        invariant
            i <= names.len(),
            forall|k: int| 0 <= k < i ==> strs(names@)[k] != n@,
        decreases names.len() - i,
    {
        if str_eq(names[i].as_str(), n.as_str()) {
            assert(strs(names@)[i as int] == n@);
            return true;
        }
        i = i + 1;
    }
    false
}

/// `e` with every fluent argument resolved under `b`.
pub(crate) fn subst_num(e: &NumExpr, b: &Vec<(Sym, Sym)>) -> (r: NumExpr)
    ensures
        num_view(r) == num_under(*e, bind_view(b@)),
    decreases e,
{
    match e {
        NumExpr::Num(n) => NumExpr::Num(*n),
        NumExpr::Fluent(f, a) => {
            let vals = args_value(a, b);
            let mut consts: Vec<Term> = Vec::new();
            let mut i: usize = 0;
            while i < vals.len()
                invariant
                    i <= vals.len(),
                    consts.len() == i,
                    forall|k: int| 0 <= k < i ==> #[trigger] consts@[k] == Term::Const(vals@[k]),
                decreases vals.len() - i,
            {
                consts.push(Term::Const(vals[i].clone()));
                i = i + 1;
            }
            proof {
                assert(consts@.map_values(|t: Term| term_under(t, seq![])) =~= strs(vals@));
            }
            NumExpr::Fluent(f.clone(), consts)
        },
        NumExpr::Add(x, y) => NumExpr::Add(Box::new(subst_num(x, b)), Box::new(subst_num(y, b))),
        NumExpr::Sub(x, y) => NumExpr::Sub(Box::new(subst_num(x, b)), Box::new(subst_num(y, b))),
        NumExpr::Mul(x, y) => NumExpr::Mul(Box::new(subst_num(x, b)), Box::new(subst_num(y, b))),
        NumExpr::Div(x, y) => NumExpr::Div(Box::new(subst_num(x, b)), Box::new(subst_num(y, b))),
        NumExpr::Neg(x) => NumExpr::Neg(Box::new(subst_num(x, b))),
    }
}

fn copy_terms(a: &Vec<Term>) -> (r: Vec<Term>)
    ensures
        r@ == a@,
{
    let mut r: Vec<Term> = Vec::new();
    let mut i: usize = 0;
    while i < a.len()
        invariant
            i <= a.len(),
            r@ == a@.take(i as int),
        decreases a.len() - i,
    {
        let t = match &a[i] {
            Term::Const(c) => Term::Const(c.clone()),
            Term::Var(v) => Term::Var(v.clone()),
        };
        assert(t == a@[i as int]) by {
            match a@[i as int] {
                Term::Const(c) => {},
                Term::Var(v) => {},
            }
        }
        r.push(t);
        i = i + 1;
        assert(r@ =~= a@.take(i as int));
    }
    assert(a@.take(i as int) =~= a@);
    r
}

pub(crate) fn copy_num(e: &NumExpr) -> (r: NumExpr)
    ensures
        num_view(r) == num_view(*e),
    decreases e,
{
    match e {
        NumExpr::Num(n) => NumExpr::Num(*n),
        NumExpr::Fluent(f, a) => NumExpr::Fluent(f.clone(), copy_terms(a)),
        NumExpr::Add(x, y) => NumExpr::Add(Box::new(copy_num(x)), Box::new(copy_num(y))),
        NumExpr::Sub(x, y) => NumExpr::Sub(Box::new(copy_num(x)), Box::new(copy_num(y))),
        NumExpr::Mul(x, y) => NumExpr::Mul(Box::new(copy_num(x)), Box::new(copy_num(y))),
        NumExpr::Div(x, y) => NumExpr::Div(Box::new(copy_num(x)), Box::new(copy_num(y))),
        NumExpr::Neg(x) => NumExpr::Neg(Box::new(copy_num(x))),
    }
}

pub(crate) fn copy_strs(v: &Vec<Sym>) -> (r: Vec<Sym>)
    ensures
        strs(r@) == strs(v@),
{
    let mut r: Vec<Sym> = Vec::new();
    let mut i: usize = 0;
    while i < v.len()
        invariant
            i <= v.len(),
            r.len() == i,
            forall|k: int| 0 <= k < i ==> (#[trigger] r@[k])@ == v@[k]@,
        decreases v.len() - i,
    {
        r.push(v[i].clone());
        i = i + 1;
    }
    assert(strs(r@) =~= strs(v@));
    r
}

/// Append copies of `src`'s atoms to `dst`.
pub(crate) fn push_atoms(dst: &mut Vec<(Sym, Vec<Sym>)>, src: &Vec<(Sym, Vec<Sym>)>)
    ensures
        atom_views(final(dst)@) == atom_views(old(dst)@) + atom_views(src@),
{
    let ghost d0 = dst@;
    let mut i: usize = 0;
    while i < src.len()
        invariant
            i <= src.len(),
            dst.len() == d0.len() + i,
            forall|k: int| 0 <= k < d0.len() ==> #[trigger] atom_views(dst@)[k] == atom_views(d0)[k],
            forall|k: int| 0 <= k < i ==> #[trigger] atom_views(dst@)[d0.len() + k] == atom_views(src@)[k],
        decreases src.len() - i,
    {
        let a = (src[i].0.clone(), copy_strs(&src[i].1));
        let ghost before = dst@;
        dst.push(a);
        proof {
            assert forall|k: int| 0 <= k < d0.len() implies #[trigger] atom_views(dst@)[k] == atom_views(d0)[k] by {
                assert(dst@[k] == before[k]);
                assert(atom_views(before)[k] == atom_views(d0)[k]);
            }
            assert forall|k: int| 0 <= k < i + 1 implies #[trigger] atom_views(dst@)[d0.len() + k] == atom_views(src@)[k] by {
                if k < i {
                    assert(dst@[d0.len() + k] == before[d0.len() + k]);
                    assert(atom_views(before)[d0.len() + k] == atom_views(src@)[k]);
                }
            }
        }
        i = i + 1;
    }
    proof {
        let t = atom_views(d0) + atom_views(src@);
        assert forall|k: int| 0 <= k < dst.len() implies #[trigger] atom_views(dst@)[k] == t[k] by {
            if k >= d0.len() {
                let m = k - d0.len();
                assert(atom_views(dst@)[d0.len() + m] == atom_views(src@)[m]);
            }
        }
        assert(atom_views(dst@) =~= t);
    }
}

pub(crate) fn push_lits(dst: &mut Vec<(CompOp, NumExpr, NumExpr)>, src: &Vec<(CompOp, NumExpr, NumExpr)>)
    ensures
        final(dst)@.map_values(|l: (CompOp, NumExpr, NumExpr)| lit_view(l)) == old(dst)@.map_values(
            |l: (CompOp, NumExpr, NumExpr)| lit_view(l),
        ) + src@.map_values(|l: (CompOp, NumExpr, NumExpr)| lit_view(l)),
{
    let ghost d0 = dst@;
    let mut i: usize = 0;
    while i < src.len()
        invariant
            i <= src.len(),
            dst.len() == d0.len() + i,
            forall|k: int| 0 <= k < d0.len() ==> lit_view(#[trigger] dst@[k]) == lit_view(d0[k]),
            forall|k: int| 0 <= k < i ==> lit_view(#[trigger] dst@[d0.len() + k]) == lit_view(src@[k]),
        decreases src.len() - i,
    {
        let l = (src[i].0, copy_num(&src[i].1), copy_num(&src[i].2));
        let ghost before = dst@;
        dst.push(l);
        proof {
            assert forall|k: int| 0 <= k < d0.len() implies lit_view(#[trigger] dst@[k]) == lit_view(d0[k]) by {
                assert(dst@[k] == before[k]);
            }
            assert forall|k: int| 0 <= k < i + 1 implies lit_view(#[trigger] dst@[d0.len() + k]) == lit_view(src@[k]) by {
                if k < i {
                    assert(dst@[d0.len() + k] == before[d0.len() + k]);
                }
            }
        }
        i = i + 1;
    }
    proof {
        let t = d0.map_values(|l: (CompOp, NumExpr, NumExpr)| lit_view(l)) + src@.map_values(
            |l: (CompOp, NumExpr, NumExpr)| lit_view(l),
        );
        let dv = dst@.map_values(|l: (CompOp, NumExpr, NumExpr)| lit_view(l));
        assert forall|k: int| 0 <= k < dst.len() implies #[trigger] dv[k] == t[k] by {
            if k >= d0.len() {
                let m = k - d0.len();
                assert(lit_view(dst@[d0.len() + m]) == lit_view(src@[m]));
            } else {
                assert(lit_view(dst@[k]) == lit_view(d0[k]));
            }
        }
        assert(dv =~= t);
    }
}

pub(crate) fn empty_conj() -> (c: Conjunct)
    ensures
        conj_view(c) == truth()[0],
{
    let c = Conjunct { pos: Vec::new(), neg: Vec::new(), num: Vec::new() };
    assert(conj_view(c).0 =~= seq![]);
    assert(conj_view(c).1 =~= seq![]);
    assert(conj_view(c).2 =~= seq![]);
    c
}

pub(crate) fn join_conj(a: &Conjunct, c: &Conjunct) -> (r: Conjunct)
    ensures
        conj_view(r) == join(conj_view(*a), conj_view(*c)),
{
    let mut pos: Vec<(Sym, Vec<Sym>)> = Vec::new();
    push_atoms(&mut pos, &a.pos);
    push_atoms(&mut pos, &c.pos);
    let mut neg: Vec<(Sym, Vec<Sym>)> = Vec::new();
    push_atoms(&mut neg, &a.neg);
    push_atoms(&mut neg, &c.neg);
    let mut num: Vec<(CompOp, NumExpr, NumExpr)> = Vec::new();
    push_lits(&mut num, &a.num);
    push_lits(&mut num, &c.num);
    proof {
        assert(atom_views(Seq::<(Sym, Vec<Sym>)>::empty()) =~= seq![]);
        assert(Seq::<(CompOp, NumExpr, NumExpr)>::empty().map_values(|l: (CompOp, NumExpr, NumExpr)| lit_view(l)) =~= seq![]);
    }
    let r = Conjunct { pos, neg, num };
    assert(conj_view(r).0 =~= join(conj_view(*a), conj_view(*c)).0);
    assert(conj_view(r).1 =~= join(conj_view(*a), conj_view(*c)).1);
    assert(conj_view(r).2 =~= join(conj_view(*a), conj_view(*c)).2);
    r
}

/// The conjunction of two DNFs (see [`product`]).
fn and_merge(acc: &Vec<Conjunct>, cd: &Vec<Conjunct>) -> (r: Vec<Conjunct>)
    ensures
        dnf_view(r@) == product(dnf_view(acc@), dnf_view(cd@)),
{
    let mut r: Vec<Conjunct> = Vec::new();
    let mut i: usize = 0;
    while i < acc.len()
        invariant
            i <= acc.len(),
            dnf_view(r@) == product(dnf_view(acc@.take(i as int)), dnf_view(cd@)),
        decreases acc.len() - i,
    {
        let ghost before = r@;
        let mut j: usize = 0;
        while j < cd.len()
            invariant
                j <= cd.len(),
                i < acc.len(),
                r.len() == before.len() + j,
                forall|k: int| 0 <= k < before.len() ==> conj_view(#[trigger] r@[k]) == conj_view(before[k]),
                forall|k: int| 0 <= k < j ==> conj_view(#[trigger] r@[before.len() + k]) == join(conj_view(acc@[i as int]), conj_view(cd@[k])),
            decreases cd.len() - j,
        {
            let ghost prev = r@;
            r.push(join_conj(&acc[i], &cd[j]));
            proof {
                assert forall|k: int| 0 <= k < before.len() implies conj_view(#[trigger] r@[k]) == conj_view(before[k]) by {
                    assert(r@[k] == prev[k]);
                }
                assert forall|k: int| 0 <= k < j + 1 implies conj_view(#[trigger] r@[before.len() + k]) == join(conj_view(acc@[i as int]), conj_view(cd@[k])) by {
                    if k < j {
                        assert(r@[before.len() + k] == prev[before.len() + k]);
                    }
                }
            }
            j = j + 1;
        }
        proof {
            let t = dnf_view(before) + dnf_view(cd@).map_values(|c: ConjView| join(conj_view(acc@[i as int]), c));
            assert forall|k: int| 0 <= k < r.len() implies #[trigger] dnf_view(r@)[k] == t[k] by {
                if k >= before.len() {
                    let m = k - before.len();
                    assert(conj_view(r@[before.len() + m]) == join(conj_view(acc@[i as int]), conj_view(cd@[m])));
                } else {
                    assert(conj_view(r@[k]) == conj_view(before[k]));
                }
            }
            assert(dnf_view(r@) =~= t);
            assert(dnf_view(acc@.take(i + 1)).drop_last() =~= dnf_view(acc@.take(i as int)));
            assert(dnf_view(acc@.take(i + 1)).last() == conj_view(acc@[i as int]));
        }
        i = i + 1;
    }
    assert(acc@.take(i as int) =~= acc@);
    r
}

fn has_truth_exec(d: &Vec<Conjunct>) -> (r: bool)
    ensures
        r == has_truth(dnf_view(d@)),
{
    let mut i: usize = 0;
    while i < d.len()
        invariant
            i <= d.len(),
            forall|k: int| 0 <= k < i ==> !is_truth(#[trigger] dnf_view(d@)[k]),
        decreases d.len() - i,
    {
        if d[i].pos.len() == 0 && d[i].neg.len() == 0 && d[i].num.len() == 0 {
            assert(is_truth(dnf_view(d@)[i as int]));
            return true;
        }
        i = i + 1;
    }
    false
}

pub open spec fn bviews(cs: Seq<Vec<(Sym, Sym)>>) -> Seq<Binding> {
    cs.map_values(|c: Vec<(Sym, Sym)>| bind_view(c@))
}

fn copy_binding(b: &Vec<(Sym, Sym)>) -> (r: Vec<(Sym, Sym)>)
    ensures
        bind_view(r@) == bind_view(b@),
{
    let mut r: Vec<(Sym, Sym)> = Vec::new();
    let mut i: usize = 0;
    while i < b.len()
        invariant
            i <= b.len(),
            r.len() == i,
            forall|k: int| 0 <= k < i ==> (#[trigger] r@[k]).0@ == b@[k].0@ && r@[k].1@ == b@[k].1@,
        decreases b.len() - i,
    {
        r.push((b[i].0.clone(), b[i].1.clone()));
        i = i + 1;
    }
    assert(bind_view(r@) =~= bind_view(b@));
    r
}

/// Each binding of `cs` extended by `v` over each object of `dom`.
fn extend_exec(cs: &Vec<Vec<(Sym, Sym)>>, v: &Sym, dom: &Vec<Sym>) -> (r: Vec<Vec<(Sym, Sym)>>)
    ensures
        bviews(r@) == extend(bviews(cs@), v@, strs(dom@)),
{
    let mut r: Vec<Vec<(Sym, Sym)>> = Vec::new();
    let mut i: usize = 0;
    while i < cs.len()
        invariant
            i <= cs.len(),
            bviews(r@) == extend(bviews(cs@.take(i as int)), v@, strs(dom@)),
        decreases cs.len() - i,
    {
        let ghost before = r@;
        let mut j: usize = 0;
        while j < dom.len()
            invariant
                j <= dom.len(),
                i < cs.len(),
                r.len() == before.len() + j,
                forall|k: int| 0 <= k < before.len() ==> bind_view((#[trigger] r@[k])@) == bind_view(before[k]@),
                forall|k: int|
                    0 <= k < j ==> bind_view((#[trigger] r@[before.len() + k])@) == bind_view(cs@[i as int]@).push(
                        (v@, dom@[k]@),
                    ),
            decreases dom.len() - j,
        {
            let mut e = copy_binding(&cs[i]);
            e.push((v.clone(), dom[j].clone()));
            assert(bind_view(e@) =~= bind_view(cs@[i as int]@).push((v@, dom@[j as int]@)));
            let ghost prev = r@;
            r.push(e);
            proof {
                assert forall|k: int| 0 <= k < before.len() implies bind_view((#[trigger] r@[k])@) == bind_view(before[k]@) by {
                    assert(r@[k] == prev[k]);
                }
                assert forall|k: int|
                    0 <= k < j + 1 implies bind_view((#[trigger] r@[before.len() + k])@) == bind_view(cs@[i as int]@).push(
                        (v@, dom@[k]@),
                    ) by {
                    if k < j {
                        assert(r@[before.len() + k] == prev[before.len() + k]);
                    }
                }
            }
            j = j + 1;
        }
        proof {
            let pre = bviews(cs@.take(i + 1));
            assert(pre.drop_last() =~= bviews(cs@.take(i as int)));
            assert(pre.last() == bind_view(cs@[i as int]@));
            let t = bviews(before) + strs(dom@).map_values(|o: Seq<char>| pre.last().push((v@, o)));
            assert forall|k: int| 0 <= k < r.len() implies #[trigger] bviews(r@)[k] == t[k] by {
                if k >= before.len() {
                    let m = k - before.len();
                    assert(bind_view(r@[before.len() + m]@) == bind_view(cs@[i as int]@).push((v@, dom@[m]@)));
                } else {
                    assert(bind_view(r@[k]@) == bind_view(before[k]@));
                }
            }
            assert(bviews(r@) =~= t);
        }
        i = i + 1;
    }
    assert(cs@.take(i as int) =~= cs@);
    r
}

/// The extensions of `b` by `vars` over the typed objects (see [`combos`]).
pub(crate) fn combos_exec(vars: &Vec<(Sym, Sym)>, b: &Vec<(Sym, Sym)>, objs: &Vec<(Sym, Vec<Sym>)>) -> (r: Vec<Vec<(Sym, Sym)>>)
    ensures
        bviews(r@) == combos(vars@, bind_view(b@), objs@),
{
    let mut cs: Vec<Vec<(Sym, Sym)>> = Vec::new();
    cs.push(copy_binding(b));
    assert(bviews(cs@) =~= combos(vars@.take(0), bind_view(b@), objs@));
    let mut i: usize = 0;
    while i < vars.len()
        invariant
            i <= vars.len(),
            bviews(cs@) == combos(vars@.take(i as int), bind_view(b@), objs@),
        decreases vars.len() - i,
    {
        let dom = objects_for(objs, &vars[i].1);
        proof {
            let pre = vars@.take(i + 1);
            assert(pre.drop_last() =~= vars@.take(i as int));
            assert(pre.last() == vars@[i as int]);
        }
        cs = extend_exec(&cs, &vars[i].0, &dom);
        i = i + 1;
    }
    assert(vars@.take(i as int) =~= vars@);
    cs
}

proof fn lemma_absorbs_prefix(fs: Seq<Formula>, b: Binding, neg: bool, objs: Objects, st: StaticsView, k: int)
    requires
        0 <= k <= fs.len(),
        absorbs(fs.take(k), b, neg, objs, st),
    ensures
        absorbs(fs, b, neg, objs, st),
    decreases fs.len() - k,
{
    if k < fs.len() {
        assert(fs.take(k + 1).drop_last() =~= fs.take(k));
        lemma_absorbs_prefix(fs, b, neg, objs, st, k + 1);
    } else {
        assert(fs.take(k) =~= fs);
    }
}

proof fn lemma_absorbs_bindings_prefix(g: Formula, cs: Seq<Binding>, neg: bool, objs: Objects, st: StaticsView, k: int)
    requires
        0 <= k <= cs.len(),
        absorbs_bindings(g, cs.take(k), neg, objs, st),
    ensures
        absorbs_bindings(g, cs, neg, objs, st),
    decreases cs.len() - k,
{
    if k < cs.len() {
        assert(cs.take(k + 1).drop_last() =~= cs.take(k));
        lemma_absorbs_bindings_prefix(g, cs, neg, objs, st, k + 1);
    } else {
        assert(cs.take(k) =~= cs);
    }
}

fn truth_exec() -> (r: Vec<Conjunct>)
    ensures
        dnf_view(r@) == truth(),
{
    let r = vec![empty_conj()];
    assert(dnf_view(r@) =~= truth());
    r
}

fn none_exec() -> (r: Vec<Conjunct>)
    ensures
        dnf_view(r@) == Seq::<ConjView>::empty(),
{
    let r: Vec<Conjunct> = Vec::new();
    assert(dnf_view(r@) =~= Seq::<ConjView>::empty());
    r
}

fn neg_comp_exec(op: CompOp) -> (r: CompOp)
    ensures
        r == neg_comp(op),
{
    match op {
        CompOp::Lt => CompOp::Ge,
        CompOp::Le => CompOp::Gt,
        CompOp::Gt => CompOp::Le,
        CompOp::Ge => CompOp::Lt,
        CompOp::Eq => CompOp::Eq,
    }
}

fn atom_exec(p: &Sym, a: &Vec<Term>, b: &Vec<(Sym, Sym)>, neg: bool, st: Option<&Statics>) -> (r: Vec<Conjunct>)
    ensures
        dnf_view(r@) == atom_dnf(p@, a@, bind_view(b@), neg, statics_view(st)),
{
    let args = args_value(a, b);
    if let Some(s) = st {
        if !name_in(&s.add_preds, p) && all_bound(a, b) {
            let in_init = atom_in(&s.init, p, &args);
            let deletable = name_in(&s.del_preds, p);
            if !in_init {
                return if neg {
                    truth_exec()
                } else {
                    none_exec()
                };
            }
            if !deletable {
                return if neg {
                    none_exec()
                } else {
                    truth_exec()
                };
            }
        }
    }
    let ghost atom = (p@, strs(args@));
    let c = if neg {
        Conjunct { pos: Vec::new(), neg: vec![(p.clone(), args)], num: Vec::new() }
    } else {
        Conjunct { pos: vec![(p.clone(), args)], neg: Vec::new(), num: Vec::new() }
    };
    let r = vec![c];
    proof {
        let cv = conj_view(r@[0]);
        if neg {
            assert(cv.0 =~= seq![]);
            assert(cv.1 =~= seq![atom]);
            assert(cv.2 =~= seq![]);
        } else {
            assert(cv.0 =~= seq![atom]);
            assert(cv.1 =~= seq![]);
            assert(cv.2 =~= seq![]);
        }
        assert(dnf_view(r@) =~= seq![cv]);
    }
    r
}

fn comp_exec(op: CompOp, l: &NumExpr, r: &NumExpr, b: &Vec<(Sym, Sym)>, neg: bool) -> (out: Vec<Conjunct>)
    ensures
        dnf_view(out@) == comp_dnf(op, *l, *r, bind_view(b@), neg),
{
    let le = subst_num(l, b);
    let re = subst_num(r, b);
    if neg && op == CompOp::Eq {
        let c1 = Conjunct { pos: Vec::new(), neg: Vec::new(), num: vec![(CompOp::Lt, copy_num(&le), copy_num(&re))] };
        let c2 = Conjunct { pos: Vec::new(), neg: Vec::new(), num: vec![(CompOp::Gt, le, re)] };
        let v = vec![c1, c2];
        proof {
            assert(conj_view(v@[0]).0 =~= seq![]);
            assert(conj_view(v@[0]).1 =~= seq![]);
            assert(conj_view(v@[0]).2 =~= seq![(CompOp::Lt, num_under(*l, bind_view(b@)), num_under(*r, bind_view(b@)))]);
            assert(conj_view(v@[1]).0 =~= seq![]);
            assert(conj_view(v@[1]).1 =~= seq![]);
            assert(conj_view(v@[1]).2 =~= seq![(CompOp::Gt, num_under(*l, bind_view(b@)), num_under(*r, bind_view(b@)))]);
            assert(dnf_view(v@) =~= seq![conj_view(v@[0]), conj_view(v@[1])]);
        }
        v
    } else {
        let o = if neg {
            neg_comp_exec(op)
        } else {
            op
        };
        let c = Conjunct { pos: Vec::new(), neg: Vec::new(), num: vec![(o, le, re)] };
        let v = vec![c];
        proof {
            assert(conj_view(v@[0]).0 =~= seq![]);
            assert(conj_view(v@[0]).1 =~= seq![]);
            assert(conj_view(v@[0]).2 =~= seq![(o, num_under(*l, bind_view(b@)), num_under(*r, bind_view(b@)))]);
            assert(dnf_view(v@) =~= seq![conj_view(v@[0])]);
        }
        v
    }
}

/// The DNF of `f` (negated with `neg`) under the binding `b`, quantifiers
/// expanded over the typed objects `objs`, static literals decided with
/// `st` (see [`dnf`]).
pub fn to_dnf(
    f: &Formula,
    b: &Vec<(Sym, Sym)>,
    neg: bool,
    objs: &Vec<(Sym, Vec<Sym>)>,
    st: Option<&Statics>,
) -> (r: Vec<Conjunct>)
    ensures
        dnf_view(r@) == dnf(*f, bind_view(b@), neg, objs@, statics_view(st)),
    decreases *f, 0int,
{
    match f {
        Formula::True => if neg {
            none_exec()
        } else {
            truth_exec()
        },
        Formula::False => if neg {
            truth_exec()
        } else {
            none_exec()
        },
        Formula::Atom(p, a) => atom_exec(p, a, b, neg, st),
        Formula::Comp(op, l, r) => comp_exec(*op, l, r, b, neg),
        Formula::Eq(x, y) => {
            let xv = term_value(x, b);
            let yv = term_value(y, b);
            if str_eq(xv.as_str(), yv.as_str()) != neg {
                truth_exec()
            } else {
                none_exec()
            }
        },
        Formula::Not(g) => {
            proof {
                assert(decreases_to!(*f => (*f)->Not_0));
            }
            to_dnf(g, b, !neg, objs, st)
        },
        Formula::And(fs) => {
            proof {
                assert(decreases_to!(*f => (*f)->And_0));
                assert(decreases_to!((*f)->And_0 => (*f)->And_0@));
            }
            if neg {
                any_exec(fs, b, neg, objs, st)
            } else {
                all_exec(fs, b, neg, objs, st)
            }
        },
        Formula::Or(fs) => {
            proof {
                assert(decreases_to!(*f => (*f)->Or_0));
                assert(decreases_to!((*f)->Or_0 => (*f)->Or_0@));
            }
            if neg {
                all_exec(fs, b, neg, objs, st)
            } else {
                any_exec(fs, b, neg, objs, st)
            }
        },
        Formula::Forall(vars, g) => {
            let cs = combos_exec(vars, b, objs);
            proof {
                assert(decreases_to!(*f => (*f)->Forall_1));
            }
            if neg {
                some_exec(g, &cs, neg, objs, st)
            } else {
                every_exec(g, &cs, neg, objs, st)
            }
        },
        Formula::Exists(vars, g) => {
            let cs = combos_exec(vars, b, objs);
            proof {
                assert(decreases_to!(*f => (*f)->Exists_1));
            }
            if neg {
                every_exec(g, &cs, neg, objs, st)
            } else {
                some_exec(g, &cs, neg, objs, st)
            }
        },
        Formula::Pref(_, _) => if neg {
            none_exec()
        } else {
            truth_exec()
        },
    }
}

fn all_exec(
    fs: &Vec<Formula>,
    b: &Vec<(Sym, Sym)>,
    neg: bool,
    objs: &Vec<(Sym, Vec<Sym>)>,
    st: Option<&Statics>,
) -> (r: Vec<Conjunct>)
    ensures
        dnf_view(r@) == all_of(fs@, bind_view(b@), neg, objs@, statics_view(st)),
    decreases fs@, 1int,
{
    let ghost bv = bind_view(b@);
    let ghost sv = statics_view(st);
    let mut acc = truth_exec();
    let mut i: usize = 0;
    assert(fs@.take(0) =~= Seq::<Formula>::empty());
    while i < fs.len()
        invariant
            i <= fs.len(),
            bv == bind_view(b@),
            sv == statics_view(st),
            dnf_view(acc@) == all_of(fs@.take(i as int), bv, neg, objs@, sv),
        decreases fs.len() - i,
    {
        proof {
            assert(decreases_to!(fs@ => fs@[i as int]));
        }
        let d = to_dnf(&fs[i], b, neg, objs, st);
        proof {
            let pre = fs@.take(i + 1);
            assert(pre.drop_last() =~= fs@.take(i as int));
            assert(pre.last() == fs@[i as int]);
        }
        acc = and_merge(&acc, &d);
        i = i + 1;
    }
    assert(fs@.take(i as int) =~= fs@);
    acc
}

fn any_exec(
    fs: &Vec<Formula>,
    b: &Vec<(Sym, Sym)>,
    neg: bool,
    objs: &Vec<(Sym, Vec<Sym>)>,
    st: Option<&Statics>,
) -> (r: Vec<Conjunct>)
    ensures
        dnf_view(r@) == any_of(fs@, bind_view(b@), neg, objs@, statics_view(st)),
    decreases fs@, 2int,
{
    let ghost bv = bind_view(b@);
    let ghost sv = statics_view(st);
    let mut acc = none_exec();
    let mut i: usize = 0;
    assert(fs@.take(0) =~= Seq::<Formula>::empty());
    while i < fs.len()
        invariant
            i <= fs.len(),
            bv == bind_view(b@),
            sv == statics_view(st),
            dnf_view(acc@) == cat_of(fs@.take(i as int), bv, neg, objs@, sv),
            !absorbs(fs@.take(i as int), bv, neg, objs@, sv) || sv is None,
        decreases fs.len() - i,
    {
        proof {
            assert(decreases_to!(fs@ => fs@[i as int]));
        }
        let mut d = to_dnf(&fs[i], b, neg, objs, st);
        proof {
            let pre = fs@.take(i + 1);
            assert(pre.drop_last() =~= fs@.take(i as int));
            assert(pre.last() == fs@[i as int]);
        }
        if st.is_some() && has_truth_exec(&d) {
            proof {
                lemma_absorbs_prefix(fs@, bv, neg, objs@, sv, i + 1);
            }
            return truth_exec();
        }
        let ghost dv = dnf_view(d@);
        acc.append(&mut d);
        i = i + 1;
    }
    assert(fs@.take(i as int) =~= fs@);
    acc
}

fn every_exec(
    g: &Formula,
    cs: &Vec<Vec<(Sym, Sym)>>,
    neg: bool,
    objs: &Vec<(Sym, Vec<Sym>)>,
    st: Option<&Statics>,
) -> (r: Vec<Conjunct>)
    ensures
        dnf_view(r@) == every_binding(*g, bviews(cs@), neg, objs@, statics_view(st)),
    decreases *g, cs@.len() + 1,
{
    let ghost sv = statics_view(st);
    let mut acc = truth_exec();
    let mut i: usize = 0;
    assert(bviews(cs@).take(0) =~= Seq::<Binding>::empty());
    while i < cs.len()
        invariant
            i <= cs.len(),
            sv == statics_view(st),
            dnf_view(acc@) == every_binding(*g, bviews(cs@).take(i as int), neg, objs@, sv),
        decreases cs.len() - i,
    {
        let d = to_dnf(g, &cs[i], neg, objs, st);
        proof {
            let pre = bviews(cs@).take(i + 1);
            assert(pre.drop_last() =~= bviews(cs@).take(i as int));
            assert(pre.last() == bind_view(cs@[i as int]@));
        }
        acc = and_merge(&acc, &d);
        i = i + 1;
    }
    assert(bviews(cs@).take(i as int) =~= bviews(cs@));
    acc
}

fn some_exec(
    g: &Formula,
    cs: &Vec<Vec<(Sym, Sym)>>,
    neg: bool,
    objs: &Vec<(Sym, Vec<Sym>)>,
    st: Option<&Statics>,
) -> (r: Vec<Conjunct>)
    ensures
        dnf_view(r@) == some_binding(*g, bviews(cs@), neg, objs@, statics_view(st)),
    decreases *g, cs@.len() + 2,
{
    let ghost sv = statics_view(st);
    let mut acc = none_exec();
    let mut i: usize = 0;
    assert(bviews(cs@).take(0) =~= Seq::<Binding>::empty());
    while i < cs.len()
        invariant
            i <= cs.len(),
            sv == statics_view(st),
            dnf_view(acc@) == cat_bindings(*g, bviews(cs@).take(i as int), neg, objs@, sv),
            !absorbs_bindings(*g, bviews(cs@).take(i as int), neg, objs@, sv) || sv is None,
        decreases cs.len() - i,
    {
        let mut d = to_dnf(g, &cs[i], neg, objs, st);
        proof {
            let pre = bviews(cs@).take(i + 1);
            assert(pre.drop_last() =~= bviews(cs@).take(i as int));
            assert(pre.last() == bind_view(cs@[i as int]@));
        }
        if st.is_some() && has_truth_exec(&d) {
            proof {
                lemma_absorbs_bindings_prefix(*g, bviews(cs@), neg, objs@, sv, i + 1);
            }
            return truth_exec();
        }
        acc.append(&mut d);
        i = i + 1;
    }
    assert(bviews(cs@).take(i as int) =~= bviews(cs@));
    acc
}

} // verus!
